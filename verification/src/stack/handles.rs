//! Handles over the life of a stack.
use super::laws::Input;
use super::model::CoreModel;
use super::timing::{lemma_conn_effects, lemma_inputs_tell_nothing, lemma_tells_nothing, tells_nothing};
use super::StackModel;
use crate::tcp::conn::FxModel;
use crate::time::Instant;
use crate::types::{SocketId, TimerKey, TimerKind};
use crate::util::ring_at;
use vstd::prelude::*;

verus! {

impl CoreModel {
    /// The tables have one entry for each slot.
    pub open spec fn tabled(self) -> bool {
        &&& self.emitted.len() == self.conns.len()
        &&& self.generations.len() == self.conns.len()
        &&& self.poll_cursor < self.conns.len() <= 256
    }
}

/// The tables are as long as they were.
pub open spec fn same_tables(a: CoreModel, b: CoreModel) -> bool {
    &&& b.tabled()
    &&& b.conns.len() == a.conns.len()
}

/// The slot is held if it was, under the same generation.
pub open spec fn held_on(a: CoreModel, b: CoreModel, idx: int) -> bool {
    &&& same_tables(a, b)
    &&& b.generations[idx] == a.generations[idx]
    &&& a.conns[idx] is Some <==> b.conns[idx] is Some
}

/// The connection in the slot is gone.
pub open spec fn freed(a: CoreModel, b: CoreModel, idx: int) -> bool {
    a.conns[idx] is Some && b.conns[idx] is None
}

/// The slot's generation counts by one if its connection is gone, and stands
/// otherwise.
#[verifier::opaque]
pub open spec fn counts_frees(a: CoreModel, b: CoreModel, idx: int) -> bool {
    &&& same_tables(a, b)
    &&& b.generations[idx] == if freed(a, b, idx) {
        a.generations[idx].wrapping_add(1)
    } else {
        a.generations[idx]
    }
}

proof fn lemma_timer_reconciled_aside(m: CoreModel, now: Instant, idx: int, kind: TimerKind)
    requires
        m.tabled(),
        0 <= idx < m.conns.len(),
    ensures
        ({
            let r = m.timer_reconciled(now, idx, kind);
            &&& r.tabled()
            &&& r.conns == m.conns
            &&& r.generations == m.generations
        }),
{
    reveal(CoreModel::timer_reconciled);
}

proof fn lemma_reconciled_aside(m: CoreModel, now: Instant, idx: int)
    requires
        m.tabled(),
        0 <= idx < m.conns.len(),
    ensures
        ({
            let r = m.reconciled(now, idx);
            &&& r.tabled()
            &&& r.conns == m.conns
            &&& r.generations == m.generations
        }),
{
    let a = m.timer_reconciled(now, idx, TimerKind::Rexmit);
    let b = a.timer_reconciled(now, idx, TimerKind::Persist);
    let c = b.timer_reconciled(now, idx, TimerKind::DelAck);
    lemma_timer_reconciled_aside(m, now, idx, TimerKind::Rexmit);
    lemma_timer_reconciled_aside(a, now, idx, TimerKind::Persist);
    lemma_timer_reconciled_aside(b, now, idx, TimerKind::DelAck);
    lemma_timer_reconciled_aside(c, now, idx, TimerKind::Wait);
}

proof fn lemma_conns_polled_hold(m: CoreModel, now: Instant, i: nat, n: nat, idx: int)
    requires
        m.tabled(),
        m.conns.len() == n,
        0 <= idx < n,
    ensures
        held_on(m, m.conns_polled(now, i, n).0, idx),
    decreases n - i,
{
    if i < n {
        let at = ring_at(m.poll_cursor as int, i as int, n as int);
        match m.conns[at] {
            None => {
                lemma_conns_polled_hold(m, now, i + 1, n, idx);
            },
            Some(c) => {
                let (after, plan) = c.next_planned(now);
                let x = m.with_conn(at, Some(after));
                match plan {
                    None => {
                        lemma_conns_polled_hold(x, now, i + 1, n, idx);
                    },
                    Some(p) => {
                        reveal(CoreModel::plan_sent);
                        let y = CoreModel { poll_cursor: at as nat, ..x }.ident_drawn().0;
                        lemma_reconciled_aside(y.tx_counted(), now, at);
                    },
                }
            },
        }
    }
}

proof fn lemma_drained_holds(m: CoreModel, now: Instant, idx: int)
    requires
        m.tabled(),
        0 <= idx < m.conns.len(),
    ensures
        held_on(m, m.drained(now).0, idx),
{
    reveal(CoreModel::drained);
    reveal(CoreModel::ctl_sent);
    reveal(CoreModel::echo_sent);
    lemma_conns_polled_hold(m, now, 0, m.conns.len(), idx);
}

proof fn lemma_reoffered_aside(m: CoreModel, at: int)
    requires
        m.tabled(),
        0 <= at < m.conns.len(),
        m.conns[at] is Some,
    ensures
        ({
            let r = m.reoffered(at);
            &&& same_tables(m, r)
            &&& r.generations == m.generations
            &&& r.conns[at] is Some
            &&& forall|i: int| 0 <= i < m.conns.len() && i != at ==> #[trigger] r.conns[i]
                == m.conns[i]
        }),
{
    reveal(CoreModel::reoffered);
    reveal(CoreModel::connected_offered);
}

/// Sweeping a slot leaves every other slot as it was, and counts its own
/// frees.
proof fn lemma_slot_swept_counts(m: CoreModel, now: Instant, at: int)
    requires
        m.tabled(),
        0 <= at < m.conns.len(),
    ensures
        ({
            let r = m.slot_swept(now, at);
            &&& same_tables(m, r)
            &&& counts_frees(m, r, at)
            &&& forall|i: int|
                #![trigger r.conns[i]]
                #![trigger r.generations[i]]
                0 <= i < m.conns.len() && i != at ==> r.conns[i] == m.conns[i] && r.generations[i]
                    == m.generations[i]
        }),
{
    reveal(CoreModel::slot_swept);
    reveal(counts_frees);
    if let Some(c) = m.conns[at] {
        if c.tcb.state is Closed {
            reveal(CoreModel::reaped);
            lemma_reconciled_aside(m, now, at);
        } else {
            let a = m.with_conn(at, Some(c.path_aged(now).timers_updated(now)));
            lemma_reoffered_aside(a, at);
            lemma_reconciled_aside(a.reoffered(at), now, at);
        }
    }
}

proof fn lemma_swept_counts(m: CoreModel, now: Instant, n: nat, idx: int)
    requires
        m.tabled(),
        n <= m.conns.len(),
        0 <= idx < m.conns.len(),
    ensures
        counts_frees(m, m.swept(now, n), idx),
        same_tables(m, m.swept(now, n)),
        n <= idx ==> m.swept(now, n).conns[idx] == m.conns[idx],
    decreases n,
{
    reveal(counts_frees);
    if n > 0 {
        let p = m.swept(now, (n - 1) as nat);
        lemma_swept_counts(m, now, (n - 1) as nat, idx);
        lemma_slot_swept_counts(p, now, n - 1);
    }
}

proof fn lemma_slots_reconciled_aside(m: StackModel, now: Instant, n: nat)
    ensures
        ({
            let r = m.slots_reconciled(now, n).host;
            &&& r.conns == m.host.conns
            &&& r.generations == m.host.generations
            &&& r.emitted == m.host.emitted
            &&& r.poll_cursor == m.host.poll_cursor
        }),
    decreases n,
{
    if n > 0 {
        lemma_slots_reconciled_aside(m, now, (n - 1) as nat);
        reveal(StackModel::predecessor_cancelled);
        reveal(StackModel::slot_timer_reconciled);
    }
}

proof fn lemma_poll_counts(m: StackModel, now: Instant, idx: int)
    requires
        m.host.tabled(),
        0 <= idx < m.host.conns.len(),
    ensures
        counts_frees(m.host, m.polled(now).0.host, idx),
{
    lemma_drained_holds(m.host, now, idx);
    let x = m.with_host(m.host.drained(now).0);
    lemma_swept_counts(x.host, now, x.host.conns.len(), idx);
    let y = x.with_host(x.host.swept(now, x.host.conns.len()));
    lemma_slots_reconciled_aside(y, now, y.slots.len());
    reveal(counts_frees);
}

proof fn lemma_timer_counts(m: StackModel, now: Instant, key: TimerKey, idx: int)
    requires
        m.host.tabled(),
        0 <= idx < m.host.conns.len(),
    ensures
        counts_frees(m.host, m.timer_fired(now, key).host, idx),
{
    reveal(counts_frees);
    match key {
        TimerKey::Reasm { slot, generation } => {},
        TimerKey::Conn { sock, kind } => {
            reveal(CoreModel::timer_fired);
            let at = sock.index as int;
            if at < m.host.conns.len() && m.host.generations[at] == sock.generation {
                let a = CoreModel {
                    emitted: m.host.emitted.update(at, m.host.emitted[at].without(kind)),
                    ..m.host
                };
                lemma_tells_nothing(a, a);
                if let Some(c) = a.conns[at] {
                    let (x, fx) = c.fired(now, kind, FxModel::empty());
                    lemma_conn_effects(a, now, at, x, fx);
                }
                reveal(tells_nothing);
            }
        },
    }
}

/// Whatever happens, a slot's generation counts by one when its connection is
/// gone, and stands otherwise.
pub proof fn generations_count_frees(m: StackModel, input: Input, idx: int)
    requires
        m.host.tabled(),
        0 <= idx < m.host.conns.len(),
    ensures
        counts_frees(m.host, m.stepped(input).0.host, idx),
{
    match input {
        Input::Poll(now) => {
            lemma_poll_counts(m, now, idx);
        },
        Input::Timer(now, key) => {
            lemma_timer_counts(m, now, key, idx);
        },
        _ => {
            lemma_inputs_tell_nothing(m, input);
            reveal(tells_nothing);
            reveal(counts_frees);
        },
    }
}

/// How often the connection in slot `idx` went away over a run.
pub open spec fn times_freed(m: StackModel, inputs: Seq<Input>, idx: int) -> nat
    decreases inputs.len(),
{
    if inputs.len() == 0 {
        0
    } else {
        let before = m.replayed(inputs.drop_last()).0;
        let after = before.stepped(inputs.last()).0;
        times_freed(m, inputs.drop_last(), idx) + if freed(before.host, after.host, idx) {
            1nat
        } else {
            0
        }
    }
}

/// Over any run a handle lives exactly as long as its connection: while the
/// connection is not gone, the handle stays live; once it is gone, the handle
/// is live no more, whatever connections use the slot later, for the next
/// 2^32 - 1 of them.
pub proof fn handles_live_as_long_as_their_connection(
    m: StackModel,
    inputs: Seq<Input>,
    sock: SocketId,
)
    requires
        m.host.tabled(),
        m.host.live(sock),
    ensures
        ({
            let n = times_freed(m, inputs, sock.index as int);
            let after = m.replayed(inputs).0.host;
            &&& n == 0 ==> after.live(sock)
            &&& 0 < n < 0x1_0000_0000 ==> !after.live(sock)
        }),
{
    lemma_generation_after(m, inputs, sock.index as int);
    let n = times_freed(m, inputs, sock.index as int);
    let g = sock.generation as int;
    if 0 < n < 0x1_0000_0000 {
        assert((g + n) % 0x1_0000_0000 != g);
    }
}

proof fn lemma_generation_counted(a: CoreModel, b: CoreModel, idx: int)
    requires
        counts_frees(a, b, idx),
    ensures
        same_tables(a, b),
        b.generations[idx] == (a.generations[idx] + if freed(a, b, idx) {
            1int
        } else {
            0
        }) % 0x1_0000_0000,
{
    reveal(counts_frees);
}

proof fn lemma_generation_after(m: StackModel, inputs: Seq<Input>, idx: int)
    requires
        m.host.tabled(),
        0 <= idx < m.host.conns.len(),
    ensures
        ({
            let r = m.replayed(inputs).0.host;
            let n = times_freed(m, inputs, idx);
            &&& same_tables(m.host, r)
            &&& r.generations[idx] == (m.host.generations[idx] + n) % 0x1_0000_0000
            &&& n == 0 && m.host.conns[idx] is Some ==> r.conns[idx] is Some
        }),
    decreases inputs.len(),
{
    if inputs.len() > 0 {
        let x = m.replayed(inputs.drop_last()).0;
        let y = x.stepped(inputs.last()).0;
        lemma_generation_after(m, inputs.drop_last(), idx);
        generations_count_frees(x, inputs.last(), idx);
        lemma_generation_counted(x.host, y.host, idx);
        assert(m.replayed(inputs).0 == y);
    }
}

} // verus!
