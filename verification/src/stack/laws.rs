//! What holds of the stack as a whole.
use super::model::{
    conn_index, counted, destination_tag, ephemeral_at, free_index, free_port, port_clashes, CoreModel,
    StackStats, EPHEMERAL_LO, EPHEMERAL_SPAN,
};
use super::polling::{datagram_v4, datagram_v6, tcp_datagram};
use super::{Stack, StackModel};
use crate::config::{Config, ACTION_QUEUE_SIZE};
use crate::runtime::timers_after;
use crate::tcp::cc::greater;
use crate::tcp::conn::input::Segment;
use crate::tcp::conn::{ConnModel, PeerSyn, Timers};
use crate::tcp::isn::{domain, isn_value};
use crate::tcp::seq::SeqNr;
use crate::time::Instant;
use crate::types::{Action, Error, IpAddr, SocketAddr, SocketId, TimerKey, TimerKind};
use crate::util::BoundedVec;
use crate::wire::ipv4::Ipv4Emit;
use crate::wire::tcp::{EmitModel, MAX_HEADER_LEN};
use crate::wire::{be16, ipv4, ipv6, proto, tcp};
use vstd::prelude::*;

verus! {

// ----- Timers at quiescence -----

/// The runtime was told exactly the timers that the connection in slot `i`
/// wants.
pub open spec fn slot_faithful(m: CoreModel, i: int) -> bool {
    m.conns[i] matches Some(c) ==> m.emitted[i] == c.tcb.timers
}

/// Actions are only added, and every slot but `idx` is left alone.
pub open spec fn touches_only(a: CoreModel, b: CoreModel, idx: int) -> bool {
    &&& b.actions.len() >= a.actions.len()
    &&& b.conns.len() == a.conns.len()
    &&& b.emitted.len() == a.emitted.len()
    &&& forall|i: int|
        0 <= i < a.conns.len() && i != idx ==> #[trigger] b.conns[i] == a.conns[i]
    &&& forall|i: int|
        0 <= i < a.emitted.len() && i != idx ==> #[trigger] b.emitted[i] == a.emitted[i]
}

proof fn lemma_timer_reconciled_quiet(m: CoreModel, now: Instant, idx: int, kind: TimerKind)
    requires
        m.emitted.len() == m.conns.len(),
        0 <= idx < m.conns.len(),
    ensures
        touches_only(m, m.timer_reconciled(now, idx, kind), idx),
        m.timer_reconciled(now, idx, kind).conns == m.conns,
        m.actions.len() < ACTION_QUEUE_SIZE && m.timer_reconciled(now, idx, kind).actions.len()
            == m.actions.len() ==> {
            &&& m.timer_reconciled(now, idx, kind) == m
            &&& m.conns[idx] matches Some(c) ==> c.tcb.timers.get(kind) == m.emitted[idx].get(kind)
        },
{
    reveal(CoreModel::timer_reconciled);
}

proof fn lemma_reconciled_quiet(m: CoreModel, now: Instant, idx: int)
    requires
        m.emitted.len() == m.conns.len(),
        0 <= idx < m.conns.len(),
    ensures
        touches_only(m, m.reconciled(now, idx), idx),
        m.reconciled(now, idx).conns == m.conns,
        m.actions.len() < ACTION_QUEUE_SIZE && m.reconciled(now, idx).actions.len()
            == m.actions.len() ==> m.reconciled(now, idx) == m && slot_faithful(m, idx),
{
    let a = m.timer_reconciled(now, idx, TimerKind::Rexmit);
    let b = a.timer_reconciled(now, idx, TimerKind::Persist);
    let c = b.timer_reconciled(now, idx, TimerKind::DelAck);
    lemma_timer_reconciled_quiet(m, now, idx, TimerKind::Rexmit);
    lemma_timer_reconciled_quiet(a, now, idx, TimerKind::Persist);
    lemma_timer_reconciled_quiet(b, now, idx, TimerKind::DelAck);
    lemma_timer_reconciled_quiet(c, now, idx, TimerKind::Wait);
}

proof fn lemma_reoffered_quiet(m: CoreModel, idx: int)
    requires
        m.emitted.len() == m.conns.len(),
        0 <= idx < m.conns.len(),
    ensures
        touches_only(m, m.reoffered(idx), idx),
        m.actions.len() < ACTION_QUEUE_SIZE && m.reoffered(idx).actions.len() == m.actions.len()
            ==> m.reoffered(idx) == m,
{
    reveal(CoreModel::reoffered);
    reveal(CoreModel::connected_offered);
}

proof fn lemma_reaped_quiet(m: CoreModel, now: Instant, idx: int)
    requires
        m.emitted.len() == m.conns.len(),
        0 <= idx < m.conns.len(),
    ensures
        touches_only(m, m.reaped(now, idx), idx),
        m.actions.len() < ACTION_QUEUE_SIZE && m.reaped(now, idx).actions.len() == m.actions.len()
            ==> slot_faithful(m.reaped(now, idx), idx),
{
    reveal(CoreModel::reaped);
    lemma_reconciled_quiet(m, now, idx);
}

proof fn lemma_slot_swept_quiet(m: CoreModel, now: Instant, idx: int)
    requires
        m.emitted.len() == m.conns.len(),
        0 <= idx < m.conns.len(),
    ensures
        touches_only(m, m.slot_swept(now, idx), idx),
        m.actions.len() < ACTION_QUEUE_SIZE && m.slot_swept(now, idx).actions.len()
            == m.actions.len() ==> slot_faithful(m.slot_swept(now, idx), idx),
{
    reveal(CoreModel::slot_swept);
    if let Some(c) = m.conns[idx] {
        lemma_reaped_quiet(m, now, idx);
        let w = m.with_conn(idx, Some(c.path_aged(now).timers_updated(now)));
        lemma_reoffered_quiet(w, idx);
        lemma_reconciled_quiet(w.reoffered(idx), now, idx);
    }
}

proof fn lemma_swept_quiet(m: CoreModel, now: Instant, n: nat)
    requires
        m.emitted.len() == m.conns.len(),
        n <= m.conns.len(),
    ensures
        m.swept(now, n).conns.len() == m.conns.len(),
        m.swept(now, n).emitted.len() == m.emitted.len(),
        m.swept(now, n).actions.len() >= m.actions.len(),
        m.actions.len() == 0 && m.swept(now, n).actions.len() == 0 ==> forall|i: int|
            0 <= i < n ==> #[trigger] slot_faithful(m.swept(now, n), i),
    decreases n,
{
    if n > 0 {
        let p = m.swept(now, (n - 1) as nat);
        lemma_swept_quiet(m, now, (n - 1) as nat);
        lemma_slot_swept_quiet(p, now, n - 1);
        let q = m.swept(now, n);
        if m.actions.len() == 0 && q.actions.len() == 0 {
            assert forall|i: int| 0 <= i < n implies #[trigger] slot_faithful(q, i) by {
                if i < n - 1 {
                    assert(slot_faithful(p, i));
                    assert(q.conns[i] == p.conns[i]);
                    assert(q.emitted[i] == p.emitted[i]);
                }
            }
        }
    }
}

/// The runtime was told exactly the timer that reassembly slot `i` wants.
pub open spec fn reasm_faithful(m: StackModel, i: int) -> bool {
    match m.slot_deadline(i) {
        Some(d) => m.emitted_reasm[i] == Some((m.slots[i].generation, d)),
        None => m.emitted_reasm[i] is None,
    }
}

proof fn lemma_slot_reconciled_quiet(m: StackModel, now: Instant, i: int)
    requires
        m.emitted_reasm.len() == m.slots.len(),
        0 <= i < m.slots.len(),
    ensures
        ({
            let r = m.slot_reconciled(now, i);
            &&& r.slots == m.slots
            &&& r.host.conns == m.host.conns
            &&& r.host.emitted == m.host.emitted
            &&& r.emitted_reasm.len() == m.emitted_reasm.len()
            &&& r.host.actions.len() >= m.host.actions.len()
            &&& forall|j: int|
                0 <= j < m.slots.len() && j != i ==> #[trigger] r.emitted_reasm[j]
                    == m.emitted_reasm[j]
            &&& m.host.actions.len() == 0 && r.host.actions.len() == 0 ==> reasm_faithful(r, i)
        }),
{
    reveal(StackModel::predecessor_cancelled);
    reveal(StackModel::slot_timer_reconciled);
}

proof fn lemma_slots_reconciled_quiet(m: StackModel, now: Instant, n: nat)
    requires
        m.emitted_reasm.len() == m.slots.len(),
        n <= m.slots.len(),
    ensures
        ({
            let r = m.slots_reconciled(now, n);
            &&& r.slots == m.slots
            &&& r.host.conns == m.host.conns
            &&& r.host.emitted == m.host.emitted
            &&& r.emitted_reasm.len() == m.emitted_reasm.len()
            &&& r.host.actions.len() >= m.host.actions.len()
            &&& m.host.actions.len() == 0 && r.host.actions.len() == 0 ==> forall|i: int|
                0 <= i < n ==> #[trigger] reasm_faithful(r, i)
        }),
    decreases n,
{
    if n > 0 {
        let p = m.slots_reconciled(now, (n - 1) as nat);
        lemma_slots_reconciled_quiet(m, now, (n - 1) as nat);
        lemma_slot_reconciled_quiet(p, now, n - 1);
        let r = m.slots_reconciled(now, n);
        if m.host.actions.len() == 0 && r.host.actions.len() == 0 {
            assert forall|i: int| 0 <= i < n implies #[trigger] reasm_faithful(r, i) by {
                if i < n - 1 {
                    assert(reasm_faithful(p, i));
                }
            }
        }
    }
}

proof fn lemma_polling_keeps_sizes(m: CoreModel, now: Instant, i: nat, n: nat)
    requires
        m.emitted.len() == m.conns.len(),
        m.poll_cursor < m.conns.len() == n,
    ensures
        ({
            let (r, d) = m.conns_polled(now, i, n);
            d is None ==> {
                &&& r.conns.len() == m.conns.len()
                &&& r.emitted == m.emitted
                &&& r.actions == m.actions
            }
        }),
    decreases n - i,
{
    if i < n {
        let idx = crate::util::ring_at(m.poll_cursor as int, i as int, n as int);
        match m.conns[idx] {
            None => {
                lemma_polling_keeps_sizes(m, now, i + 1, n);
            },
            Some(c) => {
                let (after, plan) = c.next_planned(now);
                if plan is None {
                    lemma_polling_keeps_sizes(m.with_conn(idx, Some(after)), now, i + 1, n);
                }
            },
        }
    }
}

/// Once a poll has nothing left to hand out, the runtime's timers are exactly
/// the wanted ones: for every connection those of the connection, for every
/// reassembly its deadline, and none for an idle reassembly slot.
pub proof fn quiescent_timers_are_faithful(m: StackModel, now: Instant)
    requires
        m.host.emitted.len() == m.host.conns.len(),
        m.host.poll_cursor < m.host.conns.len(),
        m.emitted_reasm.len() == m.slots.len(),
        m.polled(now).1 is None,
    ensures
        ({
            let r = m.polled(now).0;
            &&& r.host.actions.len() == 0
            &&& forall|i: int|
                0 <= i < r.host.conns.len() ==> #[trigger] slot_faithful(r.host, i)
            &&& forall|i: int| 0 <= i < r.slots.len() ==> #[trigger] reasm_faithful(r, i)
        }),
{
    reveal(CoreModel::drained);
    lemma_polling_keeps_sizes(m.host, now, 0, m.host.conns.len());
    let (d, _, _) = m.host.drained(now);
    let a = m.with_host(d);
    let b = a.with_host(d.swept(now, d.conns.len()));
    lemma_swept_quiet(d, now, d.conns.len());
    lemma_slots_reconciled_quiet(b, now, b.slots.len());
    let r = a.swept(now);
    assert forall|i: int| 0 <= i < r.host.conns.len() implies #[trigger] slot_faithful(
        r.host,
        i,
    ) by {
        assert(slot_faithful(b.host, i));
    }
}

/// A timer action that finds no room is counted as shed, is not queued, and
/// leaves what the runtime was told as it is, so the difference remains and the
/// next sweep offers it again. (That it is handed out in time is proved in
/// `owed`.)
pub proof fn shed_timer_action_stays_owed(m: CoreModel, now: Instant, idx: int, kind: TimerKind)
    requires
        m.actions.len() >= ACTION_QUEUE_SIZE,
        m.conns[idx] is Some,
        m.conns[idx]->0.tcb.timers.get(kind) != m.emitted[idx].get(kind),
    ensures
        m.timer_reconciled(now, idx, kind) == (CoreModel {
            stats: StackStats { actions_shed: counted(m.stats.actions_shed), ..m.stats },
            ..m
        }),
{
    reveal(CoreModel::timer_reconciled);
}

/// A timer action keeps the runtime in line: carried out when it is handed out,
/// it makes the timer pending exactly if the stack counts it as told, at the
/// deadline that the stack wants or now, if that has passed; and no other timer
/// is touched.
pub proof fn timer_actions_keep_the_runtime_in_line(
    m: CoreModel,
    now: Instant,
    idx: int,
    kind: TimerKind,
    pending: Map<TimerKey, Instant>,
)
    requires
        0 <= idx < m.emitted.len(),
        ({
            let key = TimerKey::Conn { sock: m.sock_at(idx), kind };
            pending.dom().contains(key) <==> m.emitted[idx].get(kind) is Some
        }),
    ensures
        ({
            let n = m.timer_reconciled(now, idx, kind);
            let key = TimerKey::Conn { sock: m.sock_at(idx), kind };
            ||| n.actions == m.actions && n.emitted == m.emitted
            ||| {
                let after = timers_after(pending, now, n.actions.last());
                &&& n.actions == m.actions.push(n.actions.last())
                &&& after.dom().contains(key) <==> n.emitted[idx].get(kind) is Some
                &&& n.emitted[idx].get(kind) matches Some(d) ==> after[key].micros == greater(
                    d.micros as int,
                    now.micros as int,
                )
                &&& after.remove(key) =~= pending.remove(key)
            }
        }),
{
    reveal(CoreModel::timer_reconciled);
}

// ----- Handles -----

/// A handle that is not live is refused by every call, and changes nothing.
pub proof fn stale_handles_are_refused(
    m: CoreModel,
    now: Instant,
    sock: SocketId,
    data: Seq<u8>,
)
    requires
        !m.live(sock),
    ensures
        m.conn_of(sock) is None,
        m.sent(sock, data) == (m, Err::<usize, Error>(Error::NotFound)),
        m.shut(now, sock) == (m, Err::<(), Error>(Error::NotFound)),
        m.aborted(now, sock) == (m, Err::<(), Error>(Error::NotFound)),
{
    reveal(CoreModel::shut);
    reveal(CoreModel::aborted);
}

/// Freeing a slot makes its handle stale, also once the slot is used again;
/// and a slot is freed only when the runtime has no timer left for it.
pub proof fn freed_handle_is_stale(
    m: CoreModel,
    now: Instant,
    idx: int,
    next: Option<ConnModel>,
)
    requires
        m.ok(),
        0 <= idx < m.conns.len(),
        m.conns[idx] is Some,
        m.reaped(now, idx).conns[idx] is None,
    ensures
        !m.reaped(now, idx).live(m.sock_at(idx)),
        !m.reaped(now, idx).with_conn(idx, next).live(m.sock_at(idx)),
        m.reaped(now, idx).emitted[idx] == Timers::idle(),
{
    reveal(CoreModel::reaped);
    assert(m.generations.len() == m.conns.len() && m.emitted.len() == m.conns.len()
        && m.conns.len() <= 256) by {
        reveal(CoreModel::ok);
    }
    lemma_reconciled_quiet(m, now, idx);
    lemma_reconciled_generations(m, now, idx);
}

proof fn lemma_reconciled_generations(m: CoreModel, now: Instant, idx: int)
    ensures
        m.reconciled(now, idx).generations == m.generations,
{
    reveal(CoreModel::timer_reconciled);
}

/// A timer that fires under a handle whose slot was freed since does nothing.
pub proof fn stale_timers_are_ignored(
    m: CoreModel,
    now: Instant,
    sock: SocketId,
    kind: TimerKind,
)
    requires
        sock.index >= m.conns.len() || m.generations[sock.index as int] != sock.generation,
    ensures
        m.timer_fired(now, sock, kind) == m,
{
    reveal(CoreModel::timer_fired);
}

// ----- Hostile input -----

/// A segment from a martian source is counted and nothing else: no
/// connection, no reply.
pub proof fn martians_get_no_reply(
    m: CoreModel,
    now: Instant,
    src: IpAddr,
    dst: IpAddr,
    bytes: Seq<u8>,
    rest: [u8; 4],
)
    requires
        m.is_martian(src),
    ensures
        m.tcp_delivered(now, src, dst, bytes) == m.martian(),
        m.echo_queued(src, dst, rest, bytes).echo == m.echo,
        m.echo_queued(src, dst, rest, bytes).ctl == m.ctl,
{
    reveal(CoreModel::tcp_delivered);
    reveal(CoreModel::echo_queued);
}

/// The challenge budget of a second lies between half the configured one and
/// the configured one.
pub proof fn challenge_budget_is_jittered_within_bounds(m: CoreModel, now: Instant)
    requires
        m.cfg.challenge_acks_per_sec > 0,
    ensures
        m.cfg.challenge_acks_per_sec / 2 <= m.token_budget(now) <= m.cfg.challenge_acks_per_sec,
        m.token_budget(now) >= 1,
{
}

/// How many of the tokens asked for at these times are granted.
pub open spec fn granted(m: CoreModel, times: Seq<Instant>) -> nat
    decreases times.len(),
{
    if times.len() == 0 {
        0
    } else {
        let (n, ok) = m.token_taken(times[0]);
        granted(n, times.drop_first()) + if ok {
            1nat
        } else {
            0
        }
    }
}

/// Until the next refill no more challenges are granted than tokens are left,
/// however many are asked for.
pub proof fn challenges_are_rate_limited(m: CoreModel, times: Seq<Instant>)
    requires
        forall|i: int|
            0 <= i < times.len() ==> (#[trigger] times[i]).micros < m.challenge_refill_at.micros,
    ensures
        granted(m, times) <= m.challenge_tokens,
    decreases times.len(),
{
    reveal(CoreModel::token_taken);
    if times.len() > 0 {
        let n = m.token_taken(times[0]).0;
        let rest = times.drop_first();
        assert(times[0].micros < m.challenge_refill_at.micros);
        assert forall|i: int| 0 <= i < rest.len() implies (#[trigger] rest[i]).micros
            < n.challenge_refill_at.micros by {
            assert(rest[i] == times[i + 1]);
        }
        challenges_are_rate_limited(n, rest);
    }
}

/// Which of the tokens asked for at these times are granted.
pub open spec fn grants(m: CoreModel, times: Seq<Instant>) -> Seq<bool>
    decreases times.len(),
{
    if times.len() == 0 {
        Seq::empty()
    } else {
        let (n, ok) = m.token_taken(times[0]);
        seq![ok] + grants(n, times.drop_first())
    }
}

proof fn lemma_grants_until_refill(m: CoreModel, times: Seq<Instant>)
    requires
        m.cfg.challenge_acks_per_sec > 0,
        forall|i: int|
            0 <= i < times.len() ==> (#[trigger] times[i]).micros < m.challenge_refill_at.micros,
    ensures
        grants(m, times).len() == times.len(),
        forall|i: int|
            0 <= i < times.len() ==> #[trigger] grants(m, times)[i] == (i < m.challenge_tokens),
    decreases times.len(),
{
    if times.len() > 0 {
        reveal(CoreModel::token_taken);
        let n = m.token_taken(times[0]).0;
        let rest = times.drop_first();
        assert(times[0].micros < m.challenge_refill_at.micros);
        assert forall|i: int| 0 <= i < rest.len() implies (#[trigger] rest[i]).micros
            < n.challenge_refill_at.micros by {
            assert(rest[i] == times[i + 1]);
        }
        lemma_grants_until_refill(n, rest);
        assert forall|i: int| 0 <= i < times.len() implies #[trigger] grants(m, times)[i] == (i
            < m.challenge_tokens) by {
            if i > 0 {
                assert(grants(m, times)[i] == grants(n, rest)[i - 1]);
            }
        }
    }
}

/// Of the challenges asked for in the second that starts with a refill, exactly
/// the first ones are granted, as many as the budget of that second allows. A
/// configured limit of zero grants none.
pub proof fn first_challenges_of_a_second_are_granted(m: CoreModel, times: Seq<Instant>)
    requires
        times.len() > 0,
        times[0].micros >= m.challenge_refill_at.micros,
        forall|i: int|
            0 < i < times.len() ==> (#[trigger] times[i]).micros < times[0].micros + 1_000_000,
        times[0].micros + 1_000_000 <= u64::MAX,
    ensures
        grants(m, times).len() == times.len(),
        m.cfg.challenge_acks_per_sec > 0 ==> forall|i: int|
            0 <= i < times.len() ==> #[trigger] grants(m, times)[i] == (i < m.token_budget(
                times[0],
            )),
        m.cfg.challenge_acks_per_sec == 0 ==> forall|i: int|
            0 <= i < times.len() ==> !#[trigger] grants(m, times)[i],
{
    let n = m.token_taken(times[0]).0;
    let rest = times.drop_first();
    if m.cfg.challenge_acks_per_sec > 0 {
        reveal(CoreModel::token_taken);
        assert forall|i: int| 0 <= i < rest.len() implies (#[trigger] rest[i]).micros
            < n.challenge_refill_at.micros by {
            assert(rest[i] == times[i + 1]);
        }
        lemma_grants_until_refill(n, rest);
        assert forall|i: int| 0 <= i < times.len() implies #[trigger] grants(m, times)[i] == (i
            < m.token_budget(times[0])) by {
            if i > 0 {
                assert(grants(m, times)[i] == grants(n, rest)[i - 1]);
            }
        }
    } else {
        lemma_no_grants(m, times);
    }
}

/// The challenge budget depends on nothing but the secret, the configured limit
/// and the second.
pub proof fn challenge_budget_is_fixed_for_a_second(
    m: CoreModel,
    n: CoreModel,
    now: Instant,
    later: Instant,
)
    requires
        n.key == m.key,
        n.cfg.challenge_acks_per_sec == m.cfg.challenge_acks_per_sec,
        later.micros / 1_000_000 == now.micros / 1_000_000,
    ensures
        n.token_budget(later) == m.token_budget(now),
{
    reveal(CoreModel::hashed);
    let a = (later.micros / 1_000_000) as u64;
    let b = (now.micros / 1_000_000) as u64;
    assert(a == b);
}

proof fn lemma_no_grants(m: CoreModel, times: Seq<Instant>)
    requires
        m.cfg.challenge_acks_per_sec == 0,
    ensures
        grants(m, times).len() == times.len(),
        forall|i: int| 0 <= i < times.len() ==> !#[trigger] grants(m, times)[i],
    decreases times.len(),
{
    if times.len() > 0 {
        reveal(CoreModel::token_taken);
        lemma_no_grants(m, times.drop_first());
        assert forall|i: int| 0 <= i < times.len() implies !#[trigger] grants(m, times)[i] by {
            if i > 0 {
                assert(grants(m, times)[i] == grants(m, times.drop_first())[i - 1]);
            }
        }
    }
}

/// Entropy counts once: a second delivery changes nothing.
pub proof fn entropy_counts_once(m: StackModel, first: Seq<u8>, second: Seq<u8>)
    ensures
        m.seeded(first).seeded(second) == m.seeded(first),
{
}

/// A datagram that does not parse, or is not for us, is counted and nothing
/// else: hosts do not forward.
pub proof fn foreign_datagrams_are_only_counted(m: StackModel, now: Instant, frame: Seq<u8>)
    ensures
        ipv4::parsed(frame) is Err ==> m.ipv4_taken(now, frame) == m.with_host(m.host.malformed()),
        ipv4::parsed(frame) matches Ok((h, p)) ==> (!m.host.cfg.owns(IpAddr::V4(h.dst))
            ==> m.ipv4_taken(now, frame) == m.with_host(m.host.not_local())),
        ipv6::parsed(frame) is Err ==> m.ipv6_taken(now, frame) == m.with_host(m.host.malformed()),
        ipv6::parsed(frame) matches Ok((h, p)) ==> (!m.host.cfg.owns(IpAddr::V6(h.dst))
            ==> m.ipv6_taken(now, frame) == m.with_host(m.host.not_local())),
        m.host.malformed() == (CoreModel { stats: m.host.malformed().stats, ..m.host }),
        m.host.not_local() == (CoreModel { stats: m.host.not_local().stats, ..m.host }),
{
    reveal(StackModel::ipv4_taken);
    reveal(StackModel::ipv6_taken);
}

/// When no slot is free, a SYN to a listener is dropped without an answer:
/// no connection, no reset.
pub proof fn full_table_sheds_syns(
    m: CoreModel,
    now: Instant,
    local: SocketAddr,
    remote: SocketAddr,
    seg: Segment,
)
    requires
        free_index(m.conns) >= m.conns.len(),
        conn_index(m.conns, local, remote) >= m.conns.len(),
        m.listeners.contains(local.port),
        seg.flags.syn() && !seg.flags.ack() && !seg.flags.rst(),
    ensures
        m.segment_routed(now, local, remote, seg) == m.seg_counted(),
        m.seg_counted().conns == m.conns,
        m.seg_counted().ctl == m.ctl,
        m.seg_counted().actions == m.actions,
{
    reveal(CoreModel::segment_routed);
    reveal(CoreModel::syn_accepted);
}

/// An ICMP error that quotes a sequence number which is not outstanding, or no
/// connection of ours, changes nothing.
pub proof fn implausible_errors_are_ignored(
    m: CoreModel,
    now: Instant,
    local: SocketAddr,
    remote: SocketAddr,
    seq: SeqNr,
    code: u8,
    mtu: u32,
)
    requires
        ({
            let idx = conn_index(m.conns, local, remote);
            idx < m.conns.len() ==> !m.conns[idx as int]->0.quote_plausible(seq)
        }),
    ensures
        m.error_reported(now, local, remote, seq, code, mtu) == m,
{
    reveal(CoreModel::error_reported);
}

/// A reset is never answered by one.
pub proof fn resets_are_not_answered(
    m: CoreModel,
    now: Instant,
    local: SocketAddr,
    remote: SocketAddr,
    seg: Segment,
)
    requires
        seg.flags.rst(),
        conn_index(m.conns, local, remote) >= m.conns.len(),
    ensures
        m.segment_routed(now, local, remote, seg) == m,
{
    reveal(CoreModel::segment_routed);
    reveal(CoreModel::segment_refused);
}

/// A reassembly timer that fires for an earlier datagram of its slot changes
/// nothing.
pub proof fn stale_reassembly_timers_are_ignored(
    m: StackModel,
    now: Instant,
    slot: u8,
    generation: u8,
)
    requires
        slot < m.slots.len() ==> m.slots[slot as int].generation != generation,
        slot < m.slots.len() ==> !(m.emitted_reasm[slot as int] matches Some((g, _)) && g
            == generation),
    ensures
        m.timer_fired(now, TimerKey::Reasm { slot, generation }) == m,
{
}

// ----- Endpoints -----

proof fn lemma_free_port(
    conns: Seq<Option<ConnModel>>,
    listeners: Seq<u16>,
    remote: SocketAddr,
    offset: u64,
    i: nat,
)
    ensures
        free_port(conns, listeners, remote, offset, i) matches Some(p) ==> EPHEMERAL_LO <= p
            && !port_clashes(conns, listeners, p, remote),
        free_port(conns, listeners, remote, offset, i) is None ==> forall|j: int|
            i <= j < EPHEMERAL_SPAN ==> port_clashes(
                conns,
                listeners,
                #[trigger] ephemeral_at(offset, j),
                remote,
            ),
    decreases EPHEMERAL_SPAN - i,
{
    if i < EPHEMERAL_SPAN {
        lemma_free_port(conns, listeners, remote, offset, i + 1);
    }
}

/// An automatic local port is an ephemeral one that no listener and no
/// connection to the same peer uses; it is refused only if all are in use.
pub proof fn chosen_ports_are_free(m: CoreModel, remote: SocketAddr)
    ensures
        m.port_chosen(remote).1 matches Some(p) ==> EPHEMERAL_LO <= p && !port_clashes(
            m.conns,
            m.listeners,
            p,
            remote,
        ),
        m.port_chosen(remote).1 is None ==> forall|port: u16|
            EPHEMERAL_LO <= port ==> #[trigger] port_clashes(m.conns, m.listeners, port, remote),
{
    reveal(CoreModel::port_chosen);
    let counter = m.next_ephemeral;
    let offset = match m.hashed(
        domain::EPHEMERAL_PORT,
        destination_tag(remote).wrapping_add(counter as u64),
    ) {
        Some(h) => h,
        None => counter as u64,
    };
    lemma_free_port(m.conns, m.listeners, remote, offset, 0);
    if m.port_chosen(remote).1 is None {
        assert forall|port: u16| EPHEMERAL_LO <= port implies #[trigger] port_clashes(
            m.conns,
            m.listeners,
            port,
            remote,
        ) by {
            let start = offset % EPHEMERAL_SPAN as u64;
            let want = port - EPHEMERAL_LO;
            let j = if want >= start {
                want - start
            } else {
                want - start + EPHEMERAL_SPAN
            };
            assert((start + j) % EPHEMERAL_SPAN as int == want);
            assert(ephemeral_at(offset, j) == port);
        }
    }
}

/// No two slots hold connections between the same endpoints.
pub open spec fn endpoints_distinct(conns: Seq<Option<ConnModel>>) -> bool {
    forall|i: int, j: int|
        0 <= i < j < conns.len() ==> !same_endpoints(#[trigger] conns[i], #[trigger] conns[j])
}

/// Whether two slots hold connections between the same endpoints.
pub open spec fn same_endpoints(a: Option<ConnModel>, b: Option<ConnModel>) -> bool {
    a matches Some(x) && b matches Some(y) && x.tcb.local == y.tcb.local && x.tcb.remote
        == y.tcb.remote
}

proof fn lemma_conn_index_none(
    conns: Seq<Option<ConnModel>>,
    local: SocketAddr,
    remote: SocketAddr,
)
    requires
        conn_index(conns, local, remote) >= conns.len(),
    ensures
        forall|i: int|
            0 <= i < conns.len() ==> !((#[trigger] conns[i]) matches Some(c) && c.tcb.local == local
                && c.tcb.remote == remote),
    decreases conns.len(),
{
    if conns.len() > 0 {
        lemma_conn_index_none(conns.drop_first(), local, remote);
        assert forall|i: int| 0 <= i < conns.len() implies !((#[trigger] conns[i]) matches Some(c)
            && c.tcb.local == local && c.tcb.remote == remote) by {
            if i > 0 {
                assert(conns.drop_first()[i - 1] == conns[i]);
            }
        }
    }
}

proof fn lemma_distinct_with(m: CoreModel, idx: int, c: ConnModel)
    requires
        endpoints_distinct(m.conns),
        conn_index(m.conns, c.tcb.local, c.tcb.remote) >= m.conns.len(),
        0 <= idx < m.conns.len(),
    ensures
        endpoints_distinct(m.with_conn(idx, Some(c)).conns),
{
    lemma_conn_index_none(m.conns, c.tcb.local, c.tcb.remote);
    let n = m.with_conn(idx, Some(c)).conns;
    assert forall|i: int, j: int| 0 <= i < j < n.len() implies !same_endpoints(
        #[trigger] n[i],
        #[trigger] n[j],
    ) by {
        if i != idx {
            assert(n[i] == m.conns[i]);
        }
        if j != idx {
            assert(n[j] == m.conns[j]);
        }
    }
}

/// An open, active or passive, never makes a second connection between the
/// same endpoints.
pub proof fn opens_keep_endpoints_distinct(
    m: CoreModel,
    now: Instant,
    local: SocketAddr,
    remote: SocketAddr,
    syn: PeerSyn,
)
    requires
        endpoints_distinct(m.conns),
    ensures
        endpoints_distinct(m.opened_from(now, local, remote).0.conns),
        conn_index(m.conns, local, remote) >= m.conns.len() ==> endpoints_distinct(
            m.syn_accepted(now, local, remote, syn).conns,
        ),
{
    reveal(CoreModel::opened_from);
    reveal(CoreModel::syn_accepted);
    let idx = free_index(m.conns) as int;
    if m.key is Some && idx < m.conns.len() && conn_index(m.conns, local, remote)
        >= m.conns.len() {
        let params = m.params_for(now, remote.ip);
        let iss = isn_value(m.key->0, now, local, remote);
        lemma_distinct_with(
            m,
            idx,
            ConnModel::opened(m.cfg, params, local, remote, iss, m.rcv_cap),
        );
        lemma_distinct_with(
            m,
            idx,
            ConnModel::accepted(m.cfg, params, local, remote, iss, syn, m.rcv_cap),
        );
    }
}

// ----- Replay -----

/// What a runtime does with a stack.
pub enum Input {
    /// A datagram arrived.
    Datagram(Instant, Seq<u8>),
    /// A timer fired.
    Timer(Instant, TimerKey),
    /// Entropy arrived.
    Entropy(Seq<u8>),
    /// The application listens on a port.
    Listen(u16),
    /// The application stops listening.
    Unlisten(u16),
    /// The application opens a connection.
    Connect(Instant, SocketAddr),
    /// The application opens a connection from a chosen local endpoint.
    ConnectFrom(Instant, SocketAddr, SocketAddr),
    /// The application sends.
    Send(SocketId, Seq<u8>),
    /// The application reads at most so many bytes.
    Recv(SocketId, nat),
    /// The application closes.
    Close(Instant, SocketId),
    /// The application aborts.
    Abort(Instant, SocketId),
    /// The runtime polls.
    Poll(Instant),
}

/// What comes back.
pub enum Output {
    /// Nothing.
    Nothing,
    /// Success or an error.
    Done(Result<(), Error>),
    /// A handle.
    Opened(Result<SocketId, Error>),
    /// A number of bytes.
    Count(Result<usize, Error>),
    /// Bytes read.
    Bytes(Option<Seq<u8>>),
    /// An action, with a datagram to transmit.
    Polled(Option<Action>, Option<Seq<u8>>),
}

impl StackModel {
    /// The stack after one input, and what comes back.
    pub open spec fn stepped(self, input: Input) -> (StackModel, Output) {
        match input {
            Input::Datagram(now, frame) => (self.datagram_taken(now, frame), Output::Nothing),
            Input::Timer(now, key) => (self.timer_fired(now, key), Output::Nothing),
            Input::Entropy(bytes) => (self.seeded(bytes), Output::Nothing),
            Input::Listen(port) => {
                let (h, r) = self.host.listening(port);
                (self.with_host(h), Output::Done(r))
            },
            Input::Unlisten(port) => (
                self.with_host(self.host.unlistened(port)),
                Output::Nothing,
            ),
            Input::Connect(now, remote) => {
                let (h, r) = self.host.opened(now, remote);
                (self.with_host(h), Output::Opened(r))
            },
            Input::ConnectFrom(now, local, remote) => {
                let (h, r) = self.host.opened_from(now, local, remote);
                (self.with_host(h), Output::Opened(r))
            },
            Input::Send(sock, data) => {
                let (h, r) = self.host.sent(sock, data);
                (self.with_host(h), Output::Count(r))
            },
            Input::Recv(sock, len) => match self.host.conn_of(sock) {
                None => (self, Output::Bytes(None)),
                Some(c) => {
                    let n = c.readable_into(len as int);
                    (
                        self.with_host(
                            self.host.with_conn(sock.index as int, Some(c.taken(n))),
                        ),
                        Output::Bytes(Some(c.rcv.pending().take(n))),
                    )
                },
            },
            Input::Close(now, sock) => {
                let (h, r) = self.host.shut(now, sock);
                (self.with_host(h), Output::Done(r))
            },
            Input::Abort(now, sock) => {
                let (h, r) = self.host.aborted(now, sock);
                (self.with_host(h), Output::Done(r))
            },
            Input::Poll(now) => {
                let (m, a, d) = self.polled(now);
                (m, Output::Polled(a, d))
            },
        }
    }

    /// The stack after a sequence of inputs, and everything that came back.
    pub open spec fn replayed(self, inputs: Seq<Input>) -> (StackModel, Seq<Output>)
        decreases inputs.len(),
    {
        if inputs.len() == 0 {
            (self, Seq::empty())
        } else {
            let (m, outs) = self.replayed(inputs.drop_last());
            let (n, out) = m.stepped(inputs.last());
            (n, outs.push(out))
        }
    }
}

/// A run can be replayed from any point on: what comes back for the rest of
/// the inputs depends on nothing but the stack at that point and those inputs.
pub proof fn replay_is_deterministic(m: StackModel, first: Seq<Input>, rest: Seq<Input>)
    ensures
        m.replayed(first + rest).0 == m.replayed(first).0.replayed(rest).0,
        m.replayed(first + rest).1 == m.replayed(first).1 + m.replayed(first).0.replayed(rest).1,
    decreases rest.len(),
{
    if rest.len() == 0 {
        assert(first + rest =~= first);
        assert(m.replayed(first).1 + Seq::<Output>::empty() =~= m.replayed(first).1);
    } else {
        assert((first + rest).drop_last() =~= first + rest.drop_last());
        assert((first + rest).last() == rest.last());
        replay_is_deterministic(m, first, rest.drop_last());
        let (a, outs) = m.replayed(first).0.replayed(rest.drop_last());
        let out = a.stepped(rest.last()).1;
        assert(m.replayed(first).1 + outs.push(out) =~= (m.replayed(first).1 + outs).push(out));
    }
}

/// Two stacks made from one configuration are equal, so that the same inputs
/// have the same results on both, to the last byte.
pub proof fn equal_stacks_replay_alike<const CONNS: usize, const SND: usize, const RCV: usize>(
    a: Stack<CONNS, SND, RCV>,
    b: Stack<CONNS, SND, RCV>,
    cfg: Config,
    inputs: Seq<Input>,
)
    requires
        a.fresh_from(cfg),
        b.fresh_from(cfg),
    ensures
        a@ == b@,
        a@.replayed(inputs) == b@.replayed(inputs),
{
    BoundedVec::lemma_store_determines(a@.host.cfg.local_addrs, b@.host.cfg.local_addrs);
    assert(a@.host.cfg == b@.host.cfg);
    assert(a@ =~= b@);
}

// ----- The wire -----

/// The segment that a receiver finds in the body of a datagram is the one that
/// was put in: its ports, fields, options and text.
pub open spec fn carries_segment(
    body: Seq<u8>,
    src: IpAddr,
    dst: IpAddr,
    e: EmitModel,
    payload: Seq<u8>,
) -> bool {
    tcp::parsed(body, src, dst) matches Ok((th, o, p)) && {
        &&& th.src_port == e.src_port && th.dst_port == e.dst_port
        &&& Segment::of(th, o, p) == (Segment {
            seq: SeqNr(e.seq),
            ack: SeqNr(e.ack),
            flags: e.flags,
            window: e.window,
            opts: e.options,
            payload,
        })
    }
}

/// An IPv4 datagram that is no fragment parses back, and is exactly as long as
/// its header says.
pub open spec fn datagram_v4_reads(
    g: Seq<u8>,
    src: [u8; 4],
    dst: [u8; 4],
    protocol: u8,
    payload: Seq<u8>,
) -> bool {
    ipv4::parsed(g) matches Ok((h, body)) && {
        &&& h.src == src && h.dst == dst && h.proto == protocol
        &&& !h.more_frags && h.frag_offset == 0
        &&& h.total_len == g.len() && h.header_len + body.len() == g.len()
        &&& body == payload
    }
}

/// The same of an IPv6 datagram.
pub open spec fn datagram_v6_reads(
    g: Seq<u8>,
    src: [u8; 16],
    dst: [u8; 16],
    protocol: u8,
    payload: Seq<u8>,
) -> bool {
    ipv6::parsed(g) matches Ok((h, body)) && {
        &&& h.src == src && h.dst == dst && h.proto == protocol && h.frag is None
        &&& ipv6::HEADER_LEN + be16(g, 4) == g.len()
        &&& ipv6::HEADER_LEN + body.len() == g.len()
        &&& body == payload
    }
}

pub(crate) proof fn lemma_datagram_v4_reads(
    src: [u8; 4],
    dst: [u8; 4],
    protocol: u8,
    ttl: u8,
    ident: u16,
    df: bool,
    body: Seq<u8>,
)
    requires
        ipv4::HEADER_LEN + body.len() <= u16::MAX,
    ensures
        datagram_v4_reads(
            datagram_v4(src, dst, protocol, ttl, ident, df, body),
            src,
            dst,
            protocol,
            body,
        ),
        datagram_v4(src, dst, protocol, ttl, ident, df, body).len() == 20 + body.len(),
{
    let h = Ipv4Emit {
        src,
        dst,
        proto: protocol,
        ttl,
        ident,
        dont_frag: df,
        more_frags: false,
        frag_offset: 0,
    };
    ipv4::emit_parse_round_trip(h, body);
    assert(h.header(body.len() as int).len() == 20);
}

pub(crate) proof fn lemma_datagram_v6_reads(
    src: [u8; 16],
    dst: [u8; 16],
    protocol: u8,
    hop_limit: u8,
    body: Seq<u8>,
)
    requires
        body.len() <= u16::MAX,
        protocol == proto::TCP || protocol == proto::ICMPV6,
    ensures
        datagram_v6_reads(
            datagram_v6(src, dst, protocol, hop_limit, body),
            src,
            dst,
            protocol,
            body,
        ),
        datagram_v6(src, dst, protocol, hop_limit, body).len() == 40 + body.len(),
{
    ipv6::emit_parse_round_trip(src, dst, protocol, hop_limit, body);
    assert(ipv6::header(src, dst, protocol, hop_limit, body.len() as int).len() == 40);
}

/// What is sent can be read: the IPv4 datagram that carries a segment parses
/// back to its addresses, and the segment to its fields, options and text.
pub proof fn sent_segments_parse_back_v4(
    src: [u8; 4],
    dst: [u8; 4],
    e: EmitModel,
    payload: Seq<u8>,
    ttl: u8,
    ident: u16,
)
    requires
        e.header_len() <= MAX_HEADER_LEN,
        e.options.sack_blocks.len() <= 4,
        e.options.window_scale matches Some(s) ==> s <= 14,
        e.flags.0 < 64,
        20 + e.header_len() + payload.len() <= u16::MAX,
    ensures
        ({
            let g = tcp_datagram(IpAddr::V4(src), IpAddr::V4(dst), e, payload, ttl, ident);
            let body = e.segment(IpAddr::V4(src), IpAddr::V4(dst), payload);
            &&& datagram_v4_reads(g, src, dst, proto::TCP, body)
            &&& carries_segment(body, IpAddr::V4(src), IpAddr::V4(dst), e, payload)
        }),
{
    reveal(tcp_datagram);
    let s = IpAddr::V4(src);
    let d = IpAddr::V4(dst);
    let seg = e.segment(s, d, payload);
    tcp::segment_length(e, s, d, payload);
    tcp::emit_parse_round_trip(e, s, d, payload);
    lemma_datagram_v4_reads(src, dst, proto::TCP, ttl, ident, true, seg);
}

/// What is sent can be read: the IPv6 datagram that carries a segment parses
/// back to its addresses, and the segment to its fields, options and text.
pub proof fn sent_segments_parse_back_v6(
    src: [u8; 16],
    dst: [u8; 16],
    e: EmitModel,
    payload: Seq<u8>,
    hop_limit: u8,
    ident: u16,
)
    requires
        e.header_len() <= MAX_HEADER_LEN,
        e.options.sack_blocks.len() <= 4,
        e.options.window_scale matches Some(s) ==> s <= 14,
        e.flags.0 < 64,
        e.header_len() + payload.len() <= u16::MAX,
    ensures
        ({
            let g = tcp_datagram(IpAddr::V6(src), IpAddr::V6(dst), e, payload, hop_limit, ident);
            let body = e.segment(IpAddr::V6(src), IpAddr::V6(dst), payload);
            &&& datagram_v6_reads(g, src, dst, proto::TCP, body)
            &&& carries_segment(body, IpAddr::V6(src), IpAddr::V6(dst), e, payload)
        }),
{
    reveal(tcp_datagram);
    let s = IpAddr::V6(src);
    let d = IpAddr::V6(dst);
    let seg = e.segment(s, d, payload);
    tcp::segment_length(e, s, d, payload);
    tcp::emit_parse_round_trip(e, s, d, payload);
    lemma_datagram_v6_reads(src, dst, proto::TCP, hop_limit, seg);
}

} // verus!
