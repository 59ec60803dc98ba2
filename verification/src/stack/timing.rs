//! The runtime's timers over the life of a stack: whenever a poll has nothing
//! left to hand out, they are exactly the deadlines that the stack wants.
use super::laws::{quiescent_timers_are_faithful, slot_faithful, Input};
use super::model::{conn_index, CoreModel, CtlSegment};
use super::{Stack, StackModel};
use crate::config::Config;
use crate::ip::reasm::{pushed, ReasmResult};
use crate::ip::ReasmKey;
use crate::runtime::timers_after;
use crate::tcp::conn::input::Segment;
use crate::tcp::conn::{ConnEvent, ConnModel, FxModel, Tcb, Timers};
use crate::tcp::seq::SeqNr;
use crate::time::Instant;
use crate::types::{Action, CloseReason, IpAddr, SocketAddr, SocketId, TimerKey, TimerKind};
use crate::util::ring_at;
use crate::wire::icmp;
use crate::wire::{be16, be32, ipv4, ipv6};
use vstd::prelude::*;

verus! {

/// The runtime's timers after it carried out these actions, in order.
pub open spec fn carried_out(
    pending: Map<TimerKey, Instant>,
    actions: Seq<Action>,
    now: Instant,
) -> Map<TimerKey, Instant>
    decreases actions.len(),
{
    if actions.len() == 0 {
        pending
    } else {
        carried_out(timers_after(pending, now, actions[0]), actions.drop_first(), now)
    }
}

proof fn lemma_carried_out_push(
    pending: Map<TimerKey, Instant>,
    actions: Seq<Action>,
    a: Action,
    now: Instant,
)
    ensures
        carried_out(pending, actions.push(a), now) == timers_after(
            carried_out(pending, actions, now),
            now,
            a,
        ),
    decreases actions.len(),
{
    reveal_with_fuel(carried_out, 2);
    if actions.len() > 0 {
        lemma_carried_out_push(
            timers_after(pending, now, actions[0]),
            actions.drop_first(),
            a,
            now,
        );
        assert(actions.push(a).drop_first() =~= actions.drop_first().push(a));
        assert(actions.push(a)[0] == actions[0]);
    } else {
        assert(actions.push(a).drop_first() =~= Seq::empty());
    }
}

impl CoreModel {
    /// The deadline of a timer of the connection with this handle, as last told
    /// to the runtime.
    pub open spec fn told_deadline(self, sock: SocketId, kind: TimerKind) -> Option<Instant> {
        if sock.index < self.conns.len() && self.generations[sock.index as int]
            == sock.generation {
            self.emitted[sock.index as int].get(kind)
        } else {
            None
        }
    }

    /// The deadline that the connection with this handle wants.
    pub open spec fn wanted_deadline(self, sock: SocketId, kind: TimerKind) -> Option<Instant> {
        match self.conn_of(sock) {
            Some(c) => c.tcb.timers.get(kind),
            None => None,
        }
    }

    /// The tables are in step, and nothing is told for a free slot.
    pub open spec fn tables_ok(self) -> bool {
        &&& self.emitted.len() == self.conns.len()
        &&& self.generations.len() == self.conns.len()
        &&& self.poll_cursor < self.conns.len() <= 256
        &&& forall|i: int|
            0 <= i < self.conns.len() ==> ((#[trigger] self.conns[i]) is None ==> self.emitted[i]
                == Timers::idle())
    }
}

/// Whether a timer is pending for a connection exactly if the runtime was told
/// of it, at the deadline that it was told, or at once if that had passed.
pub open spec fn timer_in_line(
    m: CoreModel,
    pending: Map<TimerKey, Instant>,
    now: Instant,
    sock: SocketId,
    kind: TimerKind,
) -> bool {
    let key = TimerKey::Conn { sock, kind };
    match m.told_deadline(sock, kind) {
        Some(d) => pending.dom().contains(key) && (pending[key] == d || d.micros
            < pending[key].micros <= now.micros),
        None => !pending.dom().contains(key),
    }
}

/// Whether the runtime's timers, once it carried out what is queued, are those
/// that it was told of.
#[verifier::opaque]
pub open spec fn in_line(m: CoreModel, pending: Map<TimerKey, Instant>, now: Instant) -> bool {
    &&& m.tables_ok()
    &&& forall|sock: SocketId, kind: TimerKind| #[trigger]
        timer_in_line(m, carried_out(pending, m.actions, now), now, sock, kind)
}

/// What concerns timers is the same, but for actions that concern none.
pub open spec fn told_alike(a: CoreModel, b: CoreModel) -> bool {
    &&& b.emitted == a.emitted
    &&& b.generations == a.generations
    &&& b.conns.len() == a.conns.len()
    &&& a.poll_cursor < a.conns.len() ==> b.poll_cursor < b.conns.len()
    &&& forall|i: int|
        0 <= i < a.conns.len() ==> ((#[trigger] b.conns[i]) is None ==> a.conns[i] is None)
}

/// A step that tells nothing of timers leaves them in line.
proof fn lemma_alike_in_line(
    a: CoreModel,
    b: CoreModel,
    pending: Map<TimerKey, Instant>,
    now: Instant,
)
    requires
        in_line(a, pending, now),
        told_alike(a, b),
        carried_out(pending, b.actions, now) == carried_out(pending, a.actions, now),
    ensures
        in_line(b, pending, now),
{
    reveal(in_line);
    assert forall|sock: SocketId, kind: TimerKind| #[trigger]
        timer_in_line(b, carried_out(pending, b.actions, now), now, sock, kind) by {
        assert(timer_in_line(a, carried_out(pending, a.actions, now), now, sock, kind));
    }
}

proof fn lemma_timer_reconciled_in_line(
    m: CoreModel,
    pending: Map<TimerKey, Instant>,
    now: Instant,
    idx: int,
    kind: TimerKind,
)
    requires
        in_line(m, pending, now),
        0 <= idx < m.conns.len(),
        m.conns[idx] is Some,
    ensures
        in_line(m.timer_reconciled(now, idx, kind), pending, now),
        m.timer_reconciled(now, idx, kind).conns == m.conns,
{
    reveal(in_line);
    reveal(CoreModel::timer_reconciled);
    let n = m.timer_reconciled(now, idx, kind);
    let c = m.conns[idx]->0;
    let key = TimerKey::Conn { sock: m.sock_at(idx), kind };
    let wanted = c.tcb.timers.get(kind);
    let q = carried_out(pending, m.actions, now);
    if wanted != m.emitted[idx].get(kind) {
        let a = match wanted {
            Some(d) => Action::StartTimer { key, after: d - now },
            None => Action::CancelTimer { key },
        };
        lemma_carried_out_push(pending, m.actions, a, now);
        assert forall|s: SocketId, k: TimerKind| #[trigger]
            timer_in_line(n, carried_out(pending, n.actions, now), now, s, k) by {
            assert(timer_in_line(m, q, now, s, k));
            if s == m.sock_at(idx) && k == kind {
            } else if s.index == idx {
                assert(n.told_deadline(s, k) == m.told_deadline(s, k));
            }
        }
    }
}

proof fn lemma_reconciled_in_line(
    m: CoreModel,
    pending: Map<TimerKey, Instant>,
    now: Instant,
    idx: int,
)
    requires
        in_line(m, pending, now),
        0 <= idx < m.conns.len(),
        m.conns[idx] is Some,
    ensures
        in_line(m.reconciled(now, idx), pending, now),
        m.reconciled(now, idx).conns == m.conns,
{
    let a = m.timer_reconciled(now, idx, TimerKind::Rexmit);
    let b = a.timer_reconciled(now, idx, TimerKind::Persist);
    let c = b.timer_reconciled(now, idx, TimerKind::DelAck);
    lemma_timer_reconciled_in_line(m, pending, now, idx, TimerKind::Rexmit);
    lemma_timer_reconciled_in_line(a, pending, now, idx, TimerKind::Persist);
    lemma_timer_reconciled_in_line(b, pending, now, idx, TimerKind::DelAck);
    lemma_timer_reconciled_in_line(c, pending, now, idx, TimerKind::Wait);
}

/// Replacing a connection in its slot tells nothing of timers.
proof fn lemma_with_conn_in_line(
    m: CoreModel,
    pending: Map<TimerKey, Instant>,
    now: Instant,
    idx: int,
    c: ConnModel,
)
    requires
        in_line(m, pending, now),
        0 <= idx < m.conns.len(),
    ensures
        in_line(m.with_conn(idx, Some(c)), pending, now),
{
    lemma_alike_in_line(m, m.with_conn(idx, Some(c)), pending, now);
}

proof fn lemma_conns_polled_in_line(
    m: CoreModel,
    pending: Map<TimerKey, Instant>,
    now: Instant,
    i: nat,
    n: nat,
)
    requires
        in_line(m, pending, now),
        m.poll_cursor < m.conns.len() == n,
    ensures
        in_line(m.conns_polled(now, i, n).0, pending, now),
        m.conns_polled(now, i, n).0.conns.len() == n,
    decreases n - i,
{
    if i < n {
        let idx = ring_at(m.poll_cursor as int, i as int, n as int);
        match m.conns[idx] {
            None => {
                lemma_conns_polled_in_line(m, pending, now, i + 1, n);
            },
            Some(c) => {
                let (after, plan) = c.next_planned(now);
                let x = m.with_conn(idx, Some(after));
                lemma_with_conn_in_line(m, pending, now, idx, after);
                match plan {
                    None => {
                        lemma_conns_polled_in_line(x, pending, now, i + 1, n);
                    },
                    Some(p) => {
                        reveal(CoreModel::plan_sent);
                        let y = CoreModel { poll_cursor: idx as nat, ..x }.ident_drawn().0;
                        let z = y.tx_counted();
                        lemma_alike_in_line(x, z, pending, now);
                        lemma_reconciled_in_line(z, pending, now, idx);
                    },
                }
            },
        }
    }
}

/// What a poll hands out before it looks at timers keeps them in line.
proof fn lemma_drained_in_line(m: CoreModel, pending: Map<TimerKey, Instant>, now: Instant)
    requires
        in_line(m, pending, now),
        m.poll_cursor < m.conns.len(),
    ensures
        ({
            let (n, a, d) = m.drained(now);
            let after = match a {
                Some(x) => timers_after(pending, now, x),
                None => pending,
            };
            in_line(n, after, now) && n.conns.len() == m.conns.len()
        }),
{
    reveal(CoreModel::drained);
    let (n, a, d) = m.drained(now);
    if m.entropy_request_pending {
        lemma_alike_in_line(m, n, pending, now);
    } else if m.actions.len() > 0 {
        lemma_popped_in_line(m, pending, now);
    } else if m.ctl.len() > 0 {
        reveal(CoreModel::ctl_sent);
        lemma_alike_in_line(m, n, pending, now);
    } else if m.echo is Some {
        reveal(CoreModel::echo_sent);
        lemma_alike_in_line(m, n, pending, now);
    } else {
        lemma_conns_polled_in_line(m, pending, now, 0, m.conns.len());
    }
}

proof fn lemma_popped_in_line(m: CoreModel, pending: Map<TimerKey, Instant>, now: Instant)
    requires
        in_line(m, pending, now),
        m.actions.len() > 0,
    ensures
        in_line(
            CoreModel { actions: m.actions.drop_first(), ..m },
            timers_after(pending, now, m.actions[0]),
            now,
        ),
{
    reveal(in_line);
    let n = CoreModel { actions: m.actions.drop_first(), ..m };
    let p = timers_after(pending, now, m.actions[0]);
    assert(carried_out(p, n.actions, now) == carried_out(pending, m.actions, now));
    assert forall|sock: SocketId, kind: TimerKind| #[trigger]
        timer_in_line(n, carried_out(p, n.actions, now), now, sock, kind) by {
        assert(timer_in_line(m, carried_out(pending, m.actions, now), now, sock, kind));
    }
}

// ----- The sweep -----

/// Queueing an action that concerns no connection timer changes nothing.
proof fn lemma_queued_in_line(
    m: CoreModel,
    pending: Map<TimerKey, Instant>,
    now: Instant,
    a: Action,
)
    requires
        in_line(m, pending, now),
        a matches Action::StartTimer { key, after } ==> key is Reasm,
        a matches Action::CancelTimer { key } ==> key is Reasm,
    ensures
        in_line(m.queued(a).0, pending, now),
{
    reveal(in_line);
    let n = m.queued(a).0;
    let q = carried_out(pending, m.actions, now);
    if m.queued(a).1 {
        lemma_carried_out_push(pending, m.actions, a, now);
    }
    assert forall|sock: SocketId, kind: TimerKind| #[trigger]
        timer_in_line(n, carried_out(pending, n.actions, now), now, sock, kind) by {
        assert(timer_in_line(m, q, now, sock, kind));
    }
}

proof fn lemma_reoffered_in_line(
    m: CoreModel,
    pending: Map<TimerKey, Instant>,
    now: Instant,
    idx: int,
)
    requires
        in_line(m, pending, now),
        0 <= idx < m.conns.len(),
        m.conns[idx] is Some,
    ensures
        in_line(m.reoffered(idx), pending, now),
        m.reoffered(idx).conns.len() == m.conns.len(),
        m.reoffered(idx).conns[idx] is Some,
{
    reveal(CoreModel::reoffered);
    reveal(CoreModel::connected_offered);
    let a = Action::App(m.app_event(idx, ConnEvent::Connected));
    let c = m.conns[idx]->0;
    lemma_queued_in_line(m, pending, now, a);
    lemma_with_conn_in_line(
        m.queued(a).0,
        pending,
        now,
        idx,
        c.with(Tcb { reported: true, ..c.tcb }),
    );
}

proof fn lemma_reaped_in_line(
    m: CoreModel,
    pending: Map<TimerKey, Instant>,
    now: Instant,
    idx: int,
)
    requires
        in_line(m, pending, now),
        0 <= idx < m.conns.len(),
        m.conns[idx] is Some,
    ensures
        in_line(m.reaped(now, idx), pending, now),
        m.reaped(now, idx).conns.len() == m.conns.len(),
{
    reveal(CoreModel::reaped);
    let r = m.reconciled(now, idx);
    lemma_reconciled_in_line(m, pending, now, idx);
    let n = m.reaped(now, idx);
    if r.emitted[idx] == Timers::idle() {
        reveal(in_line);
        let q = carried_out(pending, r.actions, now);
        assert forall|sock: SocketId, kind: TimerKind| #[trigger]
            timer_in_line(n, carried_out(pending, n.actions, now), now, sock, kind) by {
            assert(timer_in_line(r, q, now, sock, kind));
            if sock.index == idx {
                assert(r.told_deadline(sock, kind) is None);
                assert(n.told_deadline(sock, kind) is None);
            }
        }
    }
}

proof fn lemma_slot_swept_in_line(
    m: CoreModel,
    pending: Map<TimerKey, Instant>,
    now: Instant,
    idx: int,
)
    requires
        in_line(m, pending, now),
        0 <= idx < m.conns.len(),
    ensures
        in_line(m.slot_swept(now, idx), pending, now),
        m.slot_swept(now, idx).conns.len() == m.conns.len(),
{
    reveal(CoreModel::slot_swept);
    if let Some(c) = m.conns[idx] {
        if c.tcb.state is Closed {
            lemma_reaped_in_line(m, pending, now, idx);
        } else {
            let n = c.path_aged(now).timers_updated(now);
            let a = m.with_conn(idx, Some(n));
            lemma_with_conn_in_line(m, pending, now, idx, n);
            lemma_reoffered_in_line(a, pending, now, idx);
            lemma_reconciled_in_line(a.reoffered(idx), pending, now, idx);
        }
    }
}

proof fn lemma_swept_in_line(
    m: CoreModel,
    pending: Map<TimerKey, Instant>,
    now: Instant,
    n: nat,
)
    requires
        in_line(m, pending, now),
        n <= m.conns.len(),
    ensures
        in_line(m.swept(now, n), pending, now),
        m.swept(now, n).conns.len() == m.conns.len(),
    decreases n,
{
    if n > 0 {
        lemma_swept_in_line(m, pending, now, (n - 1) as nat);
        lemma_slot_swept_in_line(m.swept(now, (n - 1) as nat), pending, now, n - 1);
    }
}

proof fn lemma_slot_reconciled_in_line(
    m: StackModel,
    pending: Map<TimerKey, Instant>,
    now: Instant,
    slot: int,
)
    requires
        in_line(m.host, pending, now),
    ensures
        in_line(m.slot_reconciled(now, slot).host, pending, now),
        m.slot_reconciled(now, slot).slots == m.slots,
{
    reveal(StackModel::predecessor_cancelled);
    reveal(StackModel::slot_timer_reconciled);
    let (a, ok) = m.predecessor_cancelled(slot);
    if let Some((g, _)) = m.emitted_reasm[slot] {
        lemma_queued_in_line(
            m.host,
            pending,
            now,
            Action::CancelTimer { key: TimerKey::Reasm { slot: slot as u8, generation: g } },
        );
    }
    let key = TimerKey::Reasm { slot: slot as u8, generation: a.slots[slot].generation };
    lemma_queued_in_line(a.host, pending, now, Action::CancelTimer { key });
    if let Some(d) = a.slot_deadline(slot) {
        lemma_queued_in_line(a.host, pending, now, Action::StartTimer { key, after: d - now });
    }
}

proof fn lemma_slots_reconciled_in_line(
    m: StackModel,
    pending: Map<TimerKey, Instant>,
    now: Instant,
    n: nat,
)
    requires
        in_line(m.host, pending, now),
    ensures
        in_line(m.slots_reconciled(now, n).host, pending, now),
    decreases n,
{
    if n > 0 {
        lemma_slots_reconciled_in_line(m, pending, now, (n - 1) as nat);
        lemma_slot_reconciled_in_line(
            m.slots_reconciled(now, (n - 1) as nat),
            pending,
            now,
            n - 1,
        );
    }
}

/// A poll keeps the runtime's timers in line, if the runtime carries out what
/// the poll hands out.
pub proof fn polls_keep_timers_in_line(
    m: StackModel,
    pending: Map<TimerKey, Instant>,
    now: Instant,
)
    requires
        in_line(m.host, pending, now),
    ensures
        ({
            let (n, a, d) = m.polled(now);
            let after = match a {
                Some(x) => timers_after(pending, now, x),
                None => pending,
            };
            in_line(n.host, after, now)
        }),
{
    let (d, a, _) = m.host.drained(now);
    assert(m.host.poll_cursor < m.host.conns.len()) by {
        reveal(in_line);
    }
    lemma_drained_in_line(m.host, pending, now);
    if a is None {
        let x = m.with_host(d);
        lemma_swept_in_line(d, pending, now, d.conns.len());
        let y = x.with_host(d.swept(now, d.conns.len()));
        lemma_slots_reconciled_in_line(y, pending, now, y.slots.len());
        let s = x.swept(now);
        if s.host.actions.len() > 0 {
            lemma_popped_in_line(s.host, pending, now);
        }
    }
}

/// Whenever a poll has nothing left to hand out, the runtime's timers are
/// exactly the deadlines that the connections want: for every handle and every
/// kind of timer one is pending exactly if one is wanted, at the wanted time if
/// that has not passed, and none is left over for a handle that is stale.
pub proof fn quiet_stack_has_its_timers(
    m: StackModel,
    pending: Map<TimerKey, Instant>,
    now: Instant,
    sock: SocketId,
    kind: TimerKind,
)
    requires
        in_line(m.host, pending, now),
        m.emitted_reasm.len() == m.slots.len(),
        m.polled(now).1 is None,
    ensures
        ({
            let n = m.polled(now).0.host;
            let key = TimerKey::Conn { sock, kind };
            &&& pending.dom().contains(key) <==> n.wanted_deadline(sock, kind) is Some
            &&& n.wanted_deadline(sock, kind) matches Some(d) ==> (d.micros >= now.micros
                ==> pending[key] == d)
        }),
{
    assert(m.host.tables_ok()) by {
        reveal(in_line);
    }
    polls_keep_timers_in_line(m, pending, now);
    quiescent_timers_are_faithful(m, now);
    let n = m.polled(now).0.host;
    reveal(in_line);
    assert(n.actions =~= Seq::empty());
    assert(timer_in_line(n, carried_out(pending, n.actions, now), now, sock, kind));
    if sock.index < n.conns.len() {
        assert(slot_faithful(n, sock.index as int));
        assert(n.conns[sock.index as int] is None ==> n.emitted[sock.index as int]
            == Timers::idle());
    }
}

// ----- Everything else -----

/// Whether an action concerns no timer.
pub open spec fn timeless(a: Action) -> bool {
    !(a is StartTimer) && !(a is CancelTimer)
}

/// Nothing is told of timers: the tables are the same, and only actions that
/// concern none are queued.
#[verifier::opaque]
pub open spec fn tells_nothing(a: CoreModel, b: CoreModel) -> bool {
    &&& told_alike(a, b)
    &&& a.actions.len() <= b.actions.len()
    &&& b.actions.take(a.actions.len() as int) == a.actions
    &&& forall|i: int| a.actions.len() <= i < b.actions.len() ==> timeless(#[trigger] b.actions[i])
}

proof fn lemma_tells_nothing_then(a: CoreModel, b: CoreModel, c: CoreModel)
    requires
        tells_nothing(a, b),
        tells_nothing(b, c),
    ensures
        tells_nothing(a, c),
{
    reveal(tells_nothing);
    assert(c.actions.take(a.actions.len() as int) =~= a.actions) by {
        assert forall|i: int| 0 <= i < a.actions.len() implies c.actions[i] == a.actions[i] by {
            assert(c.actions.take(b.actions.len() as int)[i] == c.actions[i]);
            assert(b.actions.take(a.actions.len() as int)[i] == b.actions[i]);
        }
    }
    assert forall|i: int| a.actions.len() <= i < c.actions.len() implies timeless(
        #[trigger] c.actions[i],
    ) by {
        if i < b.actions.len() {
            assert(c.actions.take(b.actions.len() as int)[i] == c.actions[i]);
            assert(timeless(b.actions[i]));
        }
    }
    assert forall|i: int| 0 <= i < a.conns.len() && (#[trigger] c.conns[i]) is None implies
        a.conns[i] is None by {
        assert(b.conns[i] is None ==> a.conns[i] is None);
    }
}

/// A change of other things tells nothing.
pub(crate) proof fn lemma_tells_nothing(a: CoreModel, b: CoreModel)
    requires
        told_alike(a, b),
        b.actions == a.actions,
    ensures
        tells_nothing(a, b),
{
    reveal(tells_nothing);
    assert(b.actions.take(a.actions.len() as int) =~= a.actions);
}

proof fn lemma_told_tells_nothing(m: CoreModel, idx: int, ev: ConnEvent)
    requires
        0 <= idx < m.conns.len(),
    ensures
        tells_nothing(m, m.told(idx, ev)),
        m.told(idx, ev).conns.len() == m.conns.len(),
{
    reveal(CoreModel::told);
    reveal(tells_nothing);
    let n = m.told(idx, ev);
    assert(n.actions.take(m.actions.len() as int) =~= m.actions);
}

proof fn lemma_told_all_tells_nothing(m: CoreModel, idx: int, evs: Seq<ConnEvent>)
    requires
        0 <= idx < m.conns.len(),
    ensures
        tells_nothing(m, m.told_all(idx, evs)),
        m.told_all(idx, evs).conns.len() == m.conns.len(),
    decreases evs.len(),
{
    if evs.len() > 0 {
        let x = m.told_all(idx, evs.drop_last());
        lemma_told_all_tells_nothing(m, idx, evs.drop_last());
        lemma_told_tells_nothing(x, idx, evs.last());
        lemma_tells_nothing_then(m, x, x.told(idx, evs.last()));
    } else {
        lemma_tells_nothing(m, m);
    }
}

proof fn lemma_token_tells_nothing(m: CoreModel, now: Instant)
    ensures
        tells_nothing(m, m.token_taken(now).0),
        m.token_taken(now).0.conns == m.conns,
        m.token_taken(now).0.emitted == m.emitted,
        m.token_taken(now).0.generations == m.generations,
        m.token_taken(now).0.actions == m.actions,
        m.token_taken(now).0.poll_cursor == m.poll_cursor,
{
    reveal(CoreModel::token_taken);
    lemma_tells_nothing(m, m.token_taken(now).0);
}

proof fn lemma_effects_tell_nothing(m: CoreModel, now: Instant, idx: int, fx: FxModel)
    requires
        0 <= idx < m.conns.len(),
    ensures
        tells_nothing(m, m.effects(now, idx, fx)),
{
    let a = if fx.wants_challenge {
        m.challenged(now, idx)
    } else {
        m
    };
    assert(tells_nothing(m, a) && a.conns.len() == m.conns.len()) by {
        lemma_token_tells_nothing(m, now);
        reveal(CoreModel::challenged);
        lemma_tells_nothing(m, a);
    }
    let b = match (fx.reset_reply, a.conns[idx]) {
        (Some(r), Some(c)) => a.reset_queued(
            CtlSegment { local: c.tcb.local, remote: c.tcb.remote, seq: r.seq, ack: r.ack },
        ),
        _ => a,
    };
    lemma_tells_nothing(a, b);
    lemma_tells_nothing_then(m, a, b);
    lemma_told_all_tells_nothing(b, idx, fx.events);
    lemma_tells_nothing_then(m, b, b.told_all(idx, fx.events));
}

/// A connection replaced in its slot, with its effects.
pub(crate) proof fn lemma_conn_effects(m: CoreModel, now: Instant, idx: int, c: ConnModel, fx: FxModel)
    requires
        0 <= idx < m.conns.len(),
    ensures
        tells_nothing(m, m.with_conn(idx, Some(c)).effects(now, idx, fx)),
{
    let w = m.with_conn(idx, Some(c));
    lemma_tells_nothing(m, w);
    lemma_effects_tell_nothing(w, now, idx, fx);
    lemma_tells_nothing_then(m, w, w.effects(now, idx, fx));
}

proof fn lemma_segment_tells_nothing(
    m: CoreModel,
    now: Instant,
    local: SocketAddr,
    remote: SocketAddr,
    seg: Segment,
)
    ensures
        tells_nothing(m, m.segment_routed(now, local, remote, seg)),
{
    reveal(CoreModel::segment_routed);
    let idx = conn_index(m.conns, local, remote);
    let x = m.seg_counted();
    lemma_tells_nothing(m, x);
    if idx < m.conns.len() {
        lemma_conn_found(m.conns, local, remote);
        reveal(CoreModel::segment_taken);
        let c = x.conns[idx as int]->0;
        let (n, fx) = c.arrived(now, seg, x.snd_cap as int, FxModel::empty());
        lemma_conn_effects(x, now, idx as int, n, fx);
        lemma_tells_nothing_then(m, x, x.segment_taken(now, idx as int, seg));
    } else if seg.flags.syn() && !seg.flags.ack() && !seg.flags.rst() && m.listeners.contains(
        local.port,
    ) {
        reveal(CoreModel::syn_accepted);
        lemma_tells_nothing(m, m.segment_routed(now, local, remote, seg));
    } else {
        reveal(CoreModel::segment_refused);
        lemma_token_tells_nothing(m, now);
        lemma_tells_nothing(m, m);
        lemma_tells_nothing(m, m.segment_refused(now, local, remote, seg));
    }
}

proof fn lemma_conn_found(conns: Seq<Option<ConnModel>>, local: SocketAddr, remote: SocketAddr)
    requires
        conn_index(conns, local, remote) < conns.len(),
    ensures
        conns[conn_index(conns, local, remote) as int] is Some,
    decreases conns.len(),
{
    if conns.len() > 0 && !(conns[0] matches Some(c) && c.tcb.local == local && c.tcb.remote
        == remote) {
        lemma_conn_found(conns.drop_first(), local, remote);
    }
}

proof fn lemma_error_tells_nothing(
    m: CoreModel,
    now: Instant,
    local: SocketAddr,
    remote: SocketAddr,
    seq: SeqNr,
    code: u8,
    mtu: u32,
)
    ensures
        tells_nothing(m, m.error_reported(now, local, remote, seq, code, mtu)),
{
    reveal(CoreModel::error_reported);
    lemma_tells_nothing(m, m);
    let idx = conn_index(m.conns, local, remote);
    if idx < m.conns.len() {
        lemma_conn_found(m.conns, local, remote);
        reveal(CoreModel::path_reported);
        reveal(CoreModel::path_failed);
        let c = m.conns[idx as int]->0;
        lemma_tells_nothing(m, m.path_reported(now, idx as int, mtu));
        let (n, fx) = c.unreachable(FxModel::empty());
        lemma_conn_effects(m, now, idx as int, n, fx);
    }
}

proof fn lemma_delivery_tells_nothing(
    m: CoreModel,
    now: Instant,
    src: IpAddr,
    dst: IpAddr,
    proto: u8,
    bytes: Seq<u8>,
)
    ensures
        tells_nothing(m, m.delivered(now, src, dst, proto, bytes)),
{
    lemma_tells_nothing(m, m);
    lemma_tells_nothing(m, m.malformed());
    lemma_tells_nothing(m, m.martian());
    assert forall|b: Seq<u8>| #[trigger]
        tells_nothing(m, m.tcp_delivered(now, src, dst, b)) by {
        lemma_tcp_tells_nothing(m, now, src, dst, b);
    }
    assert forall|b: Seq<u8>| #[trigger]
        tells_nothing(m, m.icmp4_delivered(now, src, dst, b)) by {
        lemma_icmp4_tells_nothing(m, now, src, dst, b);
    }
    assert forall|b: Seq<u8>| #[trigger]
        tells_nothing(m, m.icmp6_delivered(now, src, dst, b)) by {
        lemma_icmp6_tells_nothing(m, now, src, dst, b);
    }
    reveal(CoreModel::delivered);
    reveal(CoreModel::dispatched);
}

proof fn lemma_tcp_tells_nothing(
    m: CoreModel,
    now: Instant,
    src: IpAddr,
    dst: IpAddr,
    bytes: Seq<u8>,
)
    ensures
        tells_nothing(m, m.tcp_delivered(now, src, dst, bytes)),
{
    reveal(CoreModel::tcp_delivered);
    lemma_tells_nothing(m, m.malformed());
    lemma_tells_nothing(m, m.martian());
    if let Ok((h, opts, payload)) = crate::wire::tcp::parsed(bytes, src, dst) {
        lemma_segment_tells_nothing(
            m,
            now,
            SocketAddr { ip: dst, port: h.dst_port },
            SocketAddr { ip: src, port: h.src_port },
            Segment::of(h, opts, payload),
        );
    }
}

proof fn lemma_echo_tells_nothing(
    m: CoreModel,
    src: IpAddr,
    dst: IpAddr,
    rest: [u8; 4],
    body: Seq<u8>,
)
    ensures
        tells_nothing(m, m.echo_queued(src, dst, rest, body)),
{
    reveal(CoreModel::echo_queued);
    lemma_tells_nothing(m, m.echo_queued(src, dst, rest, body));
}

proof fn lemma_quote4_tells_nothing(
    m: CoreModel,
    now: Instant,
    code: u8,
    mtu: u16,
    quote: Seq<u8>,
)
    ensures
        tells_nothing(m, m.quote4_taken(now, code, mtu, quote)),
{
    reveal(CoreModel::quote4_taken);
    lemma_tells_nothing(m, m);
    assert forall|l: SocketAddr, r: SocketAddr, s: SeqNr| #[trigger]
        tells_nothing(m, m.error_reported(now, l, r, s, code, mtu as u32)) by {
        lemma_error_tells_nothing(m, now, l, r, s, code, mtu as u32);
    }
}

proof fn lemma_quote6_tells_nothing(
    m: CoreModel,
    now: Instant,
    code: u8,
    mtu: u32,
    quote: Seq<u8>,
)
    ensures
        tells_nothing(m, m.quote6_taken(now, code, mtu, quote)),
{
    reveal(CoreModel::quote6_taken);
    lemma_tells_nothing(m, m);
    assert forall|l: SocketAddr, r: SocketAddr, s: SeqNr| #[trigger]
        tells_nothing(m, m.error_reported(now, l, r, s, code, mtu)) by {
        lemma_error_tells_nothing(m, now, l, r, s, code, mtu);
    }
}

proof fn lemma_icmp4_tells_nothing(
    m: CoreModel,
    now: Instant,
    src: IpAddr,
    dst: IpAddr,
    bytes: Seq<u8>,
)
    ensures
        tells_nothing(m, m.icmp4_delivered(now, src, dst, bytes)),
{
    reveal(CoreModel::icmp4_delivered);
    lemma_tells_nothing(m, m);
    lemma_tells_nothing(m, m.malformed());
    if let Ok((x, rest)) = icmp::parsed(bytes, bytes) {
        lemma_echo_tells_nothing(m, src, dst, x.rest, rest);
        lemma_quote4_tells_nothing(m, now, x.code, be16(x.rest@, 2), rest);
    }
}

proof fn lemma_icmp6_tells_nothing(
    m: CoreModel,
    now: Instant,
    src: IpAddr,
    dst: IpAddr,
    bytes: Seq<u8>,
)
    ensures
        tells_nothing(m, m.icmp6_delivered(now, src, dst, bytes)),
{
    reveal(CoreModel::icmp6_delivered);
    lemma_tells_nothing(m, m);
    lemma_tells_nothing(m, m.malformed());
    if let (IpAddr::V6(s), IpAddr::V6(d)) = (src, dst) {
        if let Ok((x, rest)) = icmp::parsed(
            bytes,
            crate::wire::icmp::pseudo_v6(s, d, bytes.len()) + bytes,
        ) {
            lemma_echo_tells_nothing(m, src, dst, x.rest, rest);
            lemma_quote6_tells_nothing(m, now, 4, be32(x.rest@, 0), rest);
            lemma_quote6_tells_nothing(m, now, 255, 0, rest);
        }
    }
}

impl StackModel {
    /// Each reassembly slot has its place in the table of told timers.
    pub open spec fn reasm_tables_ok(self) -> bool {
        self.emitted_reasm.len() == self.slots.len()
    }
}

proof fn lemma_fragment_tells_nothing(
    m: StackModel,
    now: Instant,
    key: ReasmKey,
    off: u32,
    more: bool,
    data: Seq<u8>,
)
    ensures
        tells_nothing(m.host, m.fragment_taken(now, key, off, more, data).host),
        m.reasm_tables_ok() ==> m.fragment_taken(now, key, off, more, data).reasm_tables_ok(),
{
    reveal(StackModel::fragment_taken);
    lemma_tells_nothing(m.host, m.host);
    let (slots, r) = pushed(
        m.slots,
        now,
        m.host.cfg.reassembly_timeout,
        key,
        off,
        more,
        data,
    );
    assert(slots.len() == m.slots.len());
    if let ReasmResult::Complete { slot } = r {
        let s = slots[slot as int];
        lemma_delivery_tells_nothing(
            m.host,
            now,
            key.src,
            key.dst,
            key.proto,
            s.buf.take(s.total_len->0 as int),
        );
    }
}

proof fn lemma_datagram_tells_nothing(m: StackModel, now: Instant, frame: Seq<u8>)
    ensures
        tells_nothing(m.host, m.ipv4_taken(now, frame).host),
        tells_nothing(m.host, m.ipv6_taken(now, frame).host),
        m.reasm_tables_ok() ==> m.ipv4_taken(now, frame).reasm_tables_ok(),
        m.reasm_tables_ok() ==> m.ipv6_taken(now, frame).reasm_tables_ok(),
{
    lemma_tells_nothing(m.host, m.host.malformed());
    lemma_tells_nothing(m.host, m.host.not_local());
    if let Ok((h, payload)) = ipv4::parsed(frame) {
        let src = IpAddr::V4(h.src);
        let dst = IpAddr::V4(h.dst);
        lemma_fragment_tells_nothing(
            m,
            now,
            ReasmKey { src, dst, proto: h.proto, ident: h.ident as u32 },
            h.frag_offset as u32,
            h.more_frags,
            payload,
        );
        lemma_delivery_tells_nothing(m.host, now, src, dst, h.proto, payload);
    }
    if let Ok((h, payload)) = ipv6::parsed(frame) {
        let src = IpAddr::V6(h.src);
        let dst = IpAddr::V6(h.dst);
        if let Some(f) = h.frag {
            lemma_fragment_tells_nothing(
                m,
                now,
                ReasmKey { src, dst, proto: f.next, ident: f.ident },
                f.offset as u32,
                f.more,
                payload,
            );
            lemma_delivery_tells_nothing(m.host, now, src, dst, f.next, payload);
        }
        lemma_delivery_tells_nothing(m.host, now, src, dst, h.proto, payload);
    }
    reveal(StackModel::ipv4_taken);
    reveal(StackModel::ipv6_taken);
}

proof fn lemma_open_tells_nothing(
    m: CoreModel,
    now: Instant,
    local: SocketAddr,
    remote: SocketAddr,
)
    ensures
        tells_nothing(m, m.opened_from(now, local, remote).0),
{
    reveal(CoreModel::opened_from);
    lemma_tells_nothing(m, m.opened_from(now, local, remote).0);
}

proof fn lemma_calls_tell_nothing(m: StackModel, input: Input)
    requires
        !(input is Poll),
        !(input is Timer),
        !(input is Datagram),
    ensures
        tells_nothing(m.host, m.stepped(input).0.host),
        m.reasm_tables_ok() ==> m.stepped(input).0.reasm_tables_ok(),
{
    let h = m.host;
    lemma_tells_nothing(h, h);
    match input {
        Input::Connect(now, remote) => {
            reveal(CoreModel::port_chosen);
            let (x, port) = h.port_chosen(remote);
            lemma_tells_nothing(h, x);
            if let Some(ip) = super::model::first_of_family(h.cfg.local_addrs@, remote.ip) {
                if let Some(p) = port {
                    let local = SocketAddr { ip, port: p };
                    lemma_open_tells_nothing(x, now, local, remote);
                    lemma_tells_nothing_then(h, x, x.opened_from(now, local, remote).0);
                }
            }
        },
        Input::ConnectFrom(now, local, remote) => {
            lemma_open_tells_nothing(h, now, local, remote);
        },
        Input::Close(now, sock) => {
            reveal(CoreModel::shut);
            if let Some(c) = h.conn_of(sock) {
                let (n, fx, r) = c.shut(FxModel::empty());
                lemma_conn_effects(h, now, sock.index as int, n, fx);
            }
        },
        Input::Abort(now, sock) => {
            reveal(CoreModel::aborted);
            let idx = sock.index as int;
            if let Some(c) = h.conn_of(sock) {
                let (n, fx) = c.closed(CloseReason::Aborted, FxModel::empty());
                let a = h.with_conn(idx, Some(n));
                let b = match c.abort_reset() {
                    Some(r) => a.reset_queued(
                        CtlSegment {
                            local: c.tcb.local,
                            remote: c.tcb.remote,
                            seq: r.seq,
                            ack: r.ack,
                        },
                    ),
                    None => a,
                };
                lemma_tells_nothing(h, b);
                lemma_effects_tell_nothing(b, now, idx, fx);
                lemma_tells_nothing_then(h, b, b.effects(now, idx, fx));
            }
        },
        _ => {
            lemma_tells_nothing(h, m.stepped(input).0.host);
        },
    }
}

/// Every input but a poll or a timer tells nothing of timers.
pub(crate) proof fn lemma_inputs_tell_nothing(m: StackModel, input: Input)
    requires
        !(input is Poll),
        !(input is Timer),
    ensures
        tells_nothing(m.host, m.stepped(input).0.host),
        m.reasm_tables_ok() ==> m.stepped(input).0.reasm_tables_ok(),
{
    match input {
        Input::Datagram(now, frame) => {
            let c = m.with_host(
                CoreModel {
                    stats: super::model::StackStats {
                        rx_datagrams: super::model::counted(m.host.stats.rx_datagrams),
                        ..m.host.stats
                    },
                    ..m.host
                },
            );
            lemma_tells_nothing(m.host, c.host);
            lemma_datagram_tells_nothing(c, now, frame);
            lemma_tells_nothing(c.host, c.host.malformed());
            lemma_tells_nothing_then(m.host, c.host, m.stepped(input).0.host);
        },
        _ => {
            lemma_calls_tell_nothing(m, input);
        },
    }
}

// ----- Runs -----

/// In line, with nothing queued that concerns a timer: the runtime carried out
/// everything of that kind.
pub open spec fn settled_in_line(
    m: StackModel,
    pending: Map<TimerKey, Instant>,
    now: Instant,
) -> bool {
    &&& in_line(m.host, pending, now)
    &&& forall|i: int| 0 <= i < m.host.actions.len() ==> timeless(#[trigger] m.host.actions[i])
    &&& m.reasm_tables_ok()
}

proof fn lemma_timeless_carried_out(
    pending: Map<TimerKey, Instant>,
    actions: Seq<Action>,
    now: Instant,
)
    requires
        forall|i: int| 0 <= i < actions.len() ==> timeless(#[trigger] actions[i]),
    ensures
        carried_out(pending, actions, now) == pending,
    decreases actions.len(),
{
    if actions.len() > 0 {
        assert(timeless(actions[0]));
        assert forall|i: int| 0 <= i < actions.drop_first().len() implies timeless(
            #[trigger] actions.drop_first()[i],
        ) by {
            assert(actions.drop_first()[i] == actions[i + 1]);
        }
        lemma_timeless_carried_out(pending, actions.drop_first(), now);
    }
}

/// Time alone changes nothing.
proof fn lemma_later_in_line(
    m: StackModel,
    pending: Map<TimerKey, Instant>,
    now: Instant,
    later: Instant,
)
    requires
        settled_in_line(m, pending, now),
        now.micros <= later.micros,
    ensures
        settled_in_line(m, pending, later),
{
    reveal(in_line);
    lemma_timeless_carried_out(pending, m.host.actions, now);
    lemma_timeless_carried_out(pending, m.host.actions, later);
    assert forall|sock: SocketId, kind: TimerKind| #[trigger]
        timer_in_line(m.host, pending, later, sock, kind) by {
        assert(timer_in_line(m.host, pending, now, sock, kind));
    }
}

proof fn lemma_input_in_line(
    m: StackModel,
    pending: Map<TimerKey, Instant>,
    now: Instant,
    input: Input,
)
    requires
        settled_in_line(m, pending, now),
        !(input is Poll),
        !(input is Timer),
    ensures
        settled_in_line(m.stepped(input).0, pending, now),
{
    let n = m.stepped(input).0;
    lemma_inputs_tell_nothing(m, input);
    reveal(tells_nothing);
    assert forall|i: int| 0 <= i < n.host.actions.len() implies timeless(
        #[trigger] n.host.actions[i],
    ) by {
        if i < m.host.actions.len() {
            assert(n.host.actions.take(m.host.actions.len() as int)[i] == n.host.actions[i]);
            assert(timeless(m.host.actions[i]));
        }
    }
    lemma_timeless_carried_out(pending, m.host.actions, now);
    lemma_timeless_carried_out(pending, n.host.actions, now);
    lemma_alike_in_line(m.host, n.host, pending, now);
}

/// A timer that fires is pending no more, and counts as told no more.
proof fn lemma_timer_in_line(
    m: StackModel,
    pending: Map<TimerKey, Instant>,
    now: Instant,
    at: Instant,
    key: TimerKey,
)
    requires
        settled_in_line(m, pending, now),
    ensures
        settled_in_line(m.timer_fired(at, key), pending.remove(key), now),
{
    let n = m.timer_fired(at, key);
    lemma_timeless_carried_out(pending, m.host.actions, now);
    lemma_timeless_carried_out(pending.remove(key), m.host.actions, now);
    match key {
        TimerKey::Reasm { slot, generation } => {
            reveal(in_line);
            assert forall|sock: SocketId, kind: TimerKind| #[trigger]
                timer_in_line(n.host, pending.remove(key), now, sock, kind) by {
                assert(timer_in_line(m.host, pending, now, sock, kind));
            }
        },
        TimerKey::Conn { sock, kind } => {
            let idx = sock.index as int;
            if idx >= m.host.conns.len() || m.host.generations[idx] != sock.generation {
                reveal(CoreModel::timer_fired);
                reveal(in_line);
                assert forall|s: SocketId, k: TimerKind| #[trigger]
                    timer_in_line(n.host, pending.remove(key), now, s, k) by {
                    assert(timer_in_line(m.host, pending, now, s, k));
                }
            } else {
                let a = CoreModel {
                    emitted: m.host.emitted.update(idx, m.host.emitted[idx].without(kind)),
                    ..m.host
                };
                assert(in_line(a, pending.remove(key), now)) by {
                    reveal(in_line);
                    assert forall|s: SocketId, k: TimerKind| #[trigger]
                        timer_in_line(a, pending.remove(key), now, s, k) by {
                        assert(timer_in_line(m.host, pending, now, s, k));
                    }
                }
                assert(tells_nothing(a, n.host)) by {
                    reveal(CoreModel::timer_fired);
                    lemma_tells_nothing(a, a);
                    if let Some(c) = a.conns[idx] {
                        let (x, fx) = c.fired(at, kind, FxModel::empty());
                        lemma_conn_effects(a, at, idx, x, fx);
                    }
                }
                reveal(tells_nothing);
                assert forall|i: int| 0 <= i < n.host.actions.len() implies timeless(
                    #[trigger] n.host.actions[i],
                ) by {
                    if i < a.actions.len() {
                        assert(n.host.actions.take(a.actions.len() as int)[i]
                            == n.host.actions[i]);
                        assert(timeless(m.host.actions[i]));
                    }
                }
                lemma_timeless_carried_out(pending.remove(key), n.host.actions, now);
                lemma_alike_in_line(a, n.host, pending.remove(key), now);
            }
        },
    }
}

/// What a runtime does in one round: it hands in what happened, and then polls
/// so often, at one time, carrying out what it is handed.
pub struct Round {
    /// What happened: anything but a poll.
    pub inputs: Seq<Input>,
    /// The time of the polls.
    pub now: Instant,
    /// How many polls hand something out.
    pub polls: nat,
}

/// A stack and the timers that its runtime keeps.
pub struct Driven {
    /// The stack.
    pub m: StackModel,
    /// The runtime's timers.
    pub pending: Map<TimerKey, Instant>,
}

impl Driven {
    /// A stack whose runtime keeps no timers yet.
    pub open spec fn started(m: StackModel) -> Driven {
        Driven { m, pending: Map::empty() }
    }

    /// After something happened; a timer that fires is pending no more.
    pub open spec fn given(self, input: Input) -> Driven {
        Driven {
            m: self.m.stepped(input).0,
            pending: match input {
                Input::Timer(now, key) => self.pending.remove(key),
                _ => self.pending,
            },
        }
    }

    /// After several things happened.
    pub open spec fn given_all(self, inputs: Seq<Input>) -> Driven
        decreases inputs.len(),
    {
        if inputs.len() == 0 {
            self
        } else {
            self.given_all(inputs.drop_last()).given(inputs.last())
        }
    }

    /// After a poll whose action was carried out.
    pub open spec fn polled(self, now: Instant) -> Driven {
        let (n, a, d) = self.m.polled(now);
        Driven {
            m: n,
            pending: match a {
                Some(x) => timers_after(self.pending, now, x),
                None => self.pending,
            },
        }
    }

    /// After several polls.
    pub open spec fn polled_times(self, now: Instant, n: nat) -> Driven
        decreases n,
    {
        if n == 0 {
            self
        } else {
            self.polled_times(now, (n - 1) as nat).polled(now)
        }
    }

    /// After a round, and the poll that found nothing left.
    pub open spec fn after_round(self, r: Round) -> Driven {
        self.given_all(r.inputs).polled_times(r.now, r.polls).polled(r.now)
    }

    /// After several rounds.
    pub open spec fn after_rounds(self, rounds: Seq<Round>) -> Driven
        decreases rounds.len(),
    {
        if rounds.len() == 0 {
            self
        } else {
            self.after_rounds(rounds.drop_last()).after_round(rounds.last())
        }
    }

    /// Whether the rounds are those of a runtime that keeps its side: no input is
    /// a poll, the polls go on until nothing is left, and time does not go back.
    pub open spec fn keeps_its_side(self, rounds: Seq<Round>) -> bool
        decreases rounds.len(),
    {
        rounds.len() > 0 ==> {
            let r = rounds.last();
            let before = self.after_rounds(rounds.drop_last());
            &&& self.keeps_its_side(rounds.drop_last())
            &&& forall|i: int| 0 <= i < r.inputs.len() ==> !((#[trigger] r.inputs[i]) is Poll)
            &&& before.given_all(r.inputs).polled_times(r.now, r.polls).m.polled(r.now).1 is None
            &&& rounds.len() > 1 ==> rounds[rounds.len() - 2].now.micros <= r.now.micros
        }
    }
}

proof fn lemma_given_all_in_line(d: Driven, inputs: Seq<Input>, now: Instant)
    requires
        settled_in_line(d.m, d.pending, now),
        forall|i: int| 0 <= i < inputs.len() ==> !((#[trigger] inputs[i]) is Poll),
    ensures
        settled_in_line(d.given_all(inputs).m, d.given_all(inputs).pending, now),
    decreases inputs.len(),
{
    if inputs.len() > 0 {
        let init = inputs.drop_last();
        assert forall|i: int| 0 <= i < init.len() implies !((#[trigger] init[i]) is Poll) by {
            assert(init[i] == inputs[i]);
        }
        lemma_given_all_in_line(d, init, now);
        let x = d.given_all(init);
        assert(!(inputs[inputs.len() - 1] is Poll));
        match inputs.last() {
            Input::Timer(at, key) => {
                lemma_timer_in_line(x.m, x.pending, now, at, key);
            },
            _ => {
                lemma_input_in_line(x.m, x.pending, now, inputs.last());
            },
        }
    }
}

proof fn lemma_polled_times_in_line(d: Driven, now: Instant, n: nat)
    requires
        in_line(d.m.host, d.pending, now),
        d.m.reasm_tables_ok(),
    ensures
        in_line(d.polled_times(now, n).m.host, d.polled_times(now, n).pending, now),
        d.polled_times(now, n).m.reasm_tables_ok(),
    decreases n,
{
    if n > 0 {
        let x = d.polled_times(now, (n - 1) as nat);
        lemma_polled_times_in_line(d, now, (n - 1) as nat);
        polls_keep_timers_in_line(x.m, x.pending, now);
        lemma_polled_keeps_tables(x.m, now);
    }
}

pub(crate) proof fn lemma_polled_keeps_tables(m: StackModel, now: Instant)
    requires
        m.reasm_tables_ok(),
    ensures
        m.polled(now).0.reasm_tables_ok(),
{
    let x = m.with_host(m.host.drained(now).0);
    let y = x.with_host(x.host.swept(now, x.host.conns.len()));
    lemma_slots_reconciled_keep_tables(y, now, y.slots.len());
}

proof fn lemma_slots_reconciled_keep_tables(m: StackModel, now: Instant, n: nat)
    requires
        m.reasm_tables_ok(),
        n <= m.slots.len(),
    ensures
        m.slots_reconciled(now, n).reasm_tables_ok(),
        m.slots_reconciled(now, n).slots == m.slots,
    decreases n,
{
    if n > 0 {
        let p = m.slots_reconciled(now, (n - 1) as nat);
        lemma_slots_reconciled_keep_tables(m, now, (n - 1) as nat);
        lemma_slot_reconciled_keeps_tables(p, now, n - 1);
    }
}

proof fn lemma_slot_reconciled_keeps_tables(m: StackModel, now: Instant, slot: int)
    requires
        m.reasm_tables_ok(),
        0 <= slot < m.slots.len(),
    ensures
        m.slot_reconciled(now, slot).reasm_tables_ok(),
        m.slot_reconciled(now, slot).slots == m.slots,
{
    reveal(StackModel::predecessor_cancelled);
    reveal(StackModel::slot_timer_reconciled);
}

/// The wanted timers, exactly.
pub open spec fn has_its_timers(d: Driven, now: Instant) -> bool {
    forall|sock: SocketId, kind: TimerKind|
        {
            let key = TimerKey::Conn { sock, kind };
            let wanted = #[trigger] d.m.host.wanted_deadline(sock, kind);
            &&& d.pending.dom().contains(key) <==> wanted is Some
            &&& wanted matches Some(at) ==> (at.micros >= now.micros ==> d.pending[key] == at)
        }
}

proof fn lemma_round_in_line(d: Driven, r: Round, before: Instant)
    requires
        settled_in_line(d.m, d.pending, before),
        before.micros <= r.now.micros,
        forall|i: int| 0 <= i < r.inputs.len() ==> !((#[trigger] r.inputs[i]) is Poll),
        d.given_all(r.inputs).polled_times(r.now, r.polls).m.polled(r.now).1 is None,
    ensures
        settled_in_line(d.after_round(r).m, d.after_round(r).pending, r.now),
        has_its_timers(d.after_round(r), r.now),
{
    lemma_later_in_line(d.m, d.pending, before, r.now);
    lemma_given_all_in_line(d, r.inputs, r.now);
    let x = d.given_all(r.inputs);
    lemma_polled_times_in_line(x, r.now, r.polls);
    let y = x.polled_times(r.now, r.polls);
    polls_keep_timers_in_line(y.m, y.pending, r.now);
    lemma_polled_keeps_tables(y.m, r.now);
    assert(y.m.host.tables_ok()) by {
        reveal(in_line);
    }
    quiescent_timers_are_faithful(y.m, r.now);
    let e = d.after_round(r);
    assert forall|sock: SocketId, kind: TimerKind|
        {
            let key = TimerKey::Conn { sock, kind };
            let wanted = #[trigger] e.m.host.wanted_deadline(sock, kind);
            &&& e.pending.dom().contains(key) <==> wanted is Some
            &&& wanted matches Some(at) ==> (at.micros >= r.now.micros ==> e.pending[key] == at)
        } by {
        quiet_stack_has_its_timers(y.m, y.pending, r.now, sock, kind);
    }
}

/// Over any number of rounds from a new stack on, with a runtime that keeps its
/// side: at the end of each round the runtime's timers are exactly the deadlines
/// that the live connections want, none missing and none left over. (So a timer
/// action that found no room was handed out before the round ended.)
pub proof fn runtimes_keep_the_wanted_timers<
    const CONNS: usize,
    const SND: usize,
    const RCV: usize,
>(s: Stack<CONNS, SND, RCV>, cfg: Config, rounds: Seq<Round>)
    requires
        1 <= CONNS <= 256,
        s.fresh_from(cfg),
        rounds.len() > 0,
        Driven::started(s@).keeps_its_side(rounds),
    ensures
        has_its_timers(
            Driven::started(s@).after_rounds(rounds),
            rounds.last().now,
        ),
{
    lemma_rounds_in_line(s, cfg, rounds);
}

proof fn lemma_rounds_in_line<const CONNS: usize, const SND: usize, const RCV: usize>(
    s: Stack<CONNS, SND, RCV>,
    cfg: Config,
    rounds: Seq<Round>,
)
    requires
        1 <= CONNS <= 256,
        s.fresh_from(cfg),
        Driven::started(s@).keeps_its_side(rounds),
    ensures
        ({
            let d = Driven::started(s@);
            let e = d.after_rounds(rounds);
            let now = if rounds.len() > 0 {
                rounds.last().now
            } else {
                Instant { micros: 0 }
            };
            &&& settled_in_line(e.m, e.pending, now)
            &&& rounds.len() > 0 ==> has_its_timers(e, now)
        }),
    decreases rounds.len(),
{
    let d = Driven::started(s@);
    if rounds.len() > 0 {
        let init = rounds.drop_last();
        lemma_rounds_in_line(s, cfg, init);
        let before = if init.len() > 0 {
            init.last().now
        } else {
            Instant { micros: 0 }
        };
        if init.len() > 0 {
            assert(init.last() == rounds[rounds.len() - 2]);
        }
        lemma_round_in_line(d.after_rounds(init), rounds.last(), before);
    } else {
        reveal(in_line);
        assert(d.m.host.actions.len() == 0);
        assert forall|sock: SocketId, kind: TimerKind| #[trigger]
            timer_in_line(
                d.m.host,
                carried_out(d.pending, d.m.host.actions, Instant { micros: 0 }),
                Instant { micros: 0 },
                sock,
                kind,
            ) by {
            assert(d.m.host.told_deadline(sock, kind) is None);
        }
    }
}

} // verus!
