//! What the runtime is owed: a timer action that found no room in the queue is
//! handed out later.
use super::laws::{quiescent_timers_are_faithful, slot_faithful, Input, Output};
use super::model::CoreModel;
use super::timing::{
    lemma_conn_effects, lemma_inputs_tell_nothing, lemma_polled_keeps_tables, lemma_tells_nothing,
    tells_nothing, timeless, told_alike,
};
use super::StackModel;
use crate::tcp::conn::{ConnEvent, ConnModel, FxModel, Tcb, Timers};
use crate::time::Instant;
use crate::types::{Action, SocketId, TimerKey, TimerKind};
use crate::util::ring_at;
use vstd::prelude::*;

verus! {

// ----- What actions say of a timer -----

/// What an action says of a timer, if it concerns it: whether it is to be
/// pending.
pub open spec fn word_of(a: Action, key: TimerKey) -> Option<bool> {
    match a {
        Action::StartTimer { key: k, after } => if k == key {
            Some(true)
        } else {
            None
        },
        Action::CancelTimer { key: k } => if k == key {
            Some(false)
        } else {
            None
        },
        _ => None,
    }
}

/// How many of these actions concern a timer.
pub open spec fn words(actions: Seq<Action>, key: TimerKey) -> nat
    decreases actions.len(),
{
    if actions.len() == 0 {
        0
    } else {
        words(actions.drop_last(), key) + if word_of(actions.last(), key) is Some {
            1nat
        } else {
            0
        }
    }
}

/// What the last of these actions that concerns a timer says of it.
pub open spec fn last_word(actions: Seq<Action>, key: TimerKey) -> Option<bool>
    decreases actions.len(),
{
    if actions.len() == 0 {
        None
    } else {
        match word_of(actions.last(), key) {
            Some(w) => Some(w),
            None => last_word(actions.drop_last(), key),
        }
    }
}

proof fn lemma_word_pushed(actions: Seq<Action>, a: Action, key: TimerKey)
    ensures
        words(actions.push(a), key) == words(actions, key) + if word_of(a, key) is Some {
            1nat
        } else {
            0
        },
        last_word(actions.push(a), key) == match word_of(a, key) {
            Some(w) => Some(w),
            None => last_word(actions, key),
        },
{
    assert(actions.push(a).drop_last() =~= actions);
    assert(actions.push(a).last() == a);
}

/// What the first action says counts only if no later one concerns the timer.
proof fn lemma_word_popped(actions: Seq<Action>, key: TimerKey)
    requires
        actions.len() > 0,
    ensures
        words(actions, key) == words(actions.drop_first(), key) + if word_of(actions[0], key)
            is Some {
            1nat
        } else {
            0
        },
        last_word(actions, key) == match last_word(actions.drop_first(), key) {
            Some(w) => Some(w),
            None => word_of(actions[0], key),
        },
    decreases actions.len(),
{
    let rest = actions.drop_first();
    if actions.len() > 1 {
        lemma_word_popped(actions.drop_last(), key);
        assert(actions.drop_last().drop_first() =~= rest.drop_last());
        assert(rest.last() == actions.last());
        assert(actions.drop_last()[0] == actions[0]);
    } else {
        assert(actions.drop_last() =~= Seq::empty());
        assert(actions.last() == actions[0]);
        reveal_with_fuel(words, 2);
        reveal_with_fuel(last_word, 2);
    }
}

/// Actions behind the others that concern no timer change nothing.
proof fn lemma_timeless_words(a: Seq<Action>, b: Seq<Action>, key: TimerKey)
    requires
        a.len() <= b.len(),
        b.take(a.len() as int) == a,
        forall|i: int| a.len() <= i < b.len() ==> timeless(#[trigger] b[i]),
    ensures
        words(b, key) == words(a, key),
        last_word(b, key) == last_word(a, key),
    decreases b.len(),
{
    if b.len() > a.len() {
        let c = b.drop_last();
        assert(c.take(a.len() as int) =~= b.take(a.len() as int));
        assert forall|i: int| a.len() <= i < c.len() implies timeless(#[trigger] c[i]) by {
            assert(c[i] == b[i]);
        }
        assert(timeless(b[b.len() - 1]));
        lemma_timeless_words(a, c, key);
    } else {
        assert(b =~= a);
    }
}

// ----- The account of one timer -----

/// A timer, what the runtime was told of it at some moment, and how many
/// actions for it were waiting then.
pub struct Account {
    /// The connection's handle.
    pub sock: SocketId,
    /// Which timer.
    pub kind: TimerKind,
    /// The deadline as told at that moment.
    pub first: Option<Instant>,
    /// How many actions for it were queued at that moment.
    pub before: nat,
}

impl Account {
    /// The account as it is opened.
    pub open spec fn opened(m: CoreModel, sock: SocketId, kind: TimerKind) -> Account {
        Account {
            sock,
            kind,
            first: m.told_deadline(sock, kind),
            before: words(m.actions, TimerKey::Conn { sock, kind }),
        }
    }

    /// Under which key the runtime has the timer.
    pub open spec fn key(self) -> TimerKey {
        TimerKey::Conn { sock: self.sock, kind: self.kind }
    }

    /// Whether the account is in order after these actions were handed out:
    /// what the runtime was told changed only if another action for the timer
    /// was queued, and the last one says what it was told.
    #[verifier::opaque]
    pub open spec fn balanced(self, handed: Seq<Action>, m: CoreModel) -> bool {
        let n = words(handed, self.key()) + words(m.actions, self.key());
        let told = m.told_deadline(self.sock, self.kind);
        let last = match last_word(m.actions, self.key()) {
            Some(w) => Some(w),
            None => last_word(handed, self.key()),
        };
        &&& m.tables_ok()
        &&& n >= self.before
        &&& n == self.before ==> told == self.first
        &&& n > self.before ==> last == Some(told is Some)
    }
}

proof fn lemma_alike_balanced(t: Account, handed: Seq<Action>, a: CoreModel, b: CoreModel)
    requires
        t.balanced(handed, a),
        told_alike(a, b),
        words(b.actions, t.key()) == words(a.actions, t.key()),
        last_word(b.actions, t.key()) == last_word(a.actions, t.key()),
    ensures
        t.balanced(handed, b),
{
    reveal(Account::balanced);
}

proof fn lemma_timer_reconciled_balanced(
    t: Account,
    handed: Seq<Action>,
    m: CoreModel,
    now: Instant,
    idx: int,
    kind: TimerKind,
)
    requires
        t.balanced(handed, m),
        0 <= idx < m.conns.len(),
    ensures
        t.balanced(handed, m.timer_reconciled(now, idx, kind)),
        m.timer_reconciled(now, idx, kind).conns == m.conns,
        m.timer_reconciled(now, idx, kind).generations == m.generations,
{
    reveal(CoreModel::timer_reconciled);
    reveal(Account::balanced);
    let key = TimerKey::Conn { sock: m.sock_at(idx), kind };
    let n = m.timer_reconciled(now, idx, kind);
    if let Some(c) = m.conns[idx] {
        match c.tcb.timers.get(kind) {
            Some(d) => {
                lemma_word_pushed(m.actions, Action::StartTimer { key, after: d - now }, t.key());
            },
            None => {
                lemma_word_pushed(m.actions, Action::CancelTimer { key }, t.key());
            },
        }
        assert(key == t.key() <==> t.sock.index == idx && m.generations[idx] == t.sock.generation
            && kind == t.kind);
    }
}

proof fn lemma_reconciled_balanced(
    t: Account,
    handed: Seq<Action>,
    m: CoreModel,
    now: Instant,
    idx: int,
)
    requires
        t.balanced(handed, m),
        0 <= idx < m.conns.len(),
    ensures
        t.balanced(handed, m.reconciled(now, idx)),
        m.reconciled(now, idx).conns == m.conns,
        m.reconciled(now, idx).generations == m.generations,
{
    let a = m.timer_reconciled(now, idx, TimerKind::Rexmit);
    let b = a.timer_reconciled(now, idx, TimerKind::Persist);
    let c = b.timer_reconciled(now, idx, TimerKind::DelAck);
    lemma_timer_reconciled_balanced(t, handed, m, now, idx, TimerKind::Rexmit);
    lemma_timer_reconciled_balanced(t, handed, a, now, idx, TimerKind::Persist);
    lemma_timer_reconciled_balanced(t, handed, b, now, idx, TimerKind::DelAck);
    lemma_timer_reconciled_balanced(t, handed, c, now, idx, TimerKind::Wait);
}

proof fn lemma_with_conn_balanced(
    t: Account,
    handed: Seq<Action>,
    m: CoreModel,
    idx: int,
    c: ConnModel,
)
    requires
        t.balanced(handed, m),
        0 <= idx < m.conns.len(),
        m.conns[idx] is Some,
    ensures
        t.balanced(handed, m.with_conn(idx, Some(c))),
{
    lemma_alike_balanced(t, handed, m, m.with_conn(idx, Some(c)));
}

/// Handing out an action that concerns no timer changes nothing.
proof fn lemma_timeless_handed(t: Account, handed: Seq<Action>, m: CoreModel, a: Action)
    requires
        t.balanced(handed, m),
        timeless(a),
    ensures
        t.balanced(handed.push(a), m),
{
    reveal(Account::balanced);
    lemma_word_pushed(handed, a, t.key());
}

proof fn lemma_popped_balanced(t: Account, handed: Seq<Action>, m: CoreModel)
    requires
        t.balanced(handed, m),
        m.actions.len() > 0,
    ensures
        t.balanced(
            handed.push(m.actions[0]),
            CoreModel { actions: m.actions.drop_first(), ..m },
        ),
{
    reveal(Account::balanced);
    lemma_word_pushed(handed, m.actions[0], t.key());
    lemma_word_popped(m.actions, t.key());
}

// ----- A poll -----

proof fn lemma_conns_polled_balanced(
    t: Account,
    handed: Seq<Action>,
    m: CoreModel,
    now: Instant,
    i: nat,
    n: nat,
)
    requires
        t.balanced(handed, m),
        m.poll_cursor < m.conns.len() == n,
    ensures
        t.balanced(handed, m.conns_polled(now, i, n).0),
    decreases n - i,
{
    if i < n {
        let idx = ring_at(m.poll_cursor as int, i as int, n as int);
        match m.conns[idx] {
            None => {
                lemma_conns_polled_balanced(t, handed, m, now, i + 1, n);
            },
            Some(c) => {
                let (after, plan) = c.next_planned(now);
                let x = m.with_conn(idx, Some(after));
                lemma_with_conn_balanced(t, handed, m, idx, after);
                match plan {
                    None => {
                        lemma_conns_polled_balanced(t, handed, x, now, i + 1, n);
                    },
                    Some(p) => {
                        reveal(CoreModel::plan_sent);
                        let y = CoreModel { poll_cursor: idx as nat, ..x }.ident_drawn().0;
                        let z = y.tx_counted();
                        lemma_alike_balanced(t, handed, x, z);
                        lemma_reconciled_balanced(t, handed, z, now, idx);
                    },
                }
            },
        }
    }
}

/// What was handed out before, and now.
pub open spec fn and_handed(handed: Seq<Action>, a: Option<Action>) -> Seq<Action> {
    match a {
        Some(x) => handed.push(x),
        None => handed,
    }
}

proof fn lemma_drained_balanced(t: Account, handed: Seq<Action>, m: CoreModel, now: Instant)
    requires
        t.balanced(handed, m),
    ensures
        t.balanced(and_handed(handed, m.drained(now).1), m.drained(now).0),
{
    assert(m.poll_cursor < m.conns.len()) by {
        reveal(Account::balanced);
    }
    reveal(CoreModel::drained);
    let (n, a, d) = m.drained(now);
    if m.entropy_request_pending {
        lemma_alike_balanced(t, handed, m, n);
        lemma_timeless_handed(t, handed, n, a->0);
    } else if m.actions.len() > 0 {
        lemma_popped_balanced(t, handed, m);
    } else if m.ctl.len() > 0 {
        reveal(CoreModel::ctl_sent);
        lemma_alike_balanced(t, handed, m, n);
        lemma_timeless_handed(t, handed, n, a->0);
    } else if m.echo is Some {
        reveal(CoreModel::echo_sent);
        lemma_alike_balanced(t, handed, m, n);
        lemma_timeless_handed(t, handed, n, a->0);
    } else {
        lemma_conns_polled_balanced(t, handed, m, now, 0, m.conns.len());
        if a is Some {
            lemma_timeless_handed(t, handed, n, a->0);
        }
    }
}

/// Queueing an action that concerns no connection timer changes nothing.
proof fn lemma_queued_balanced(t: Account, handed: Seq<Action>, m: CoreModel, a: Action)
    requires
        t.balanced(handed, m),
        word_of(a, t.key()) is None,
    ensures
        t.balanced(handed, m.queued(a).0),
{
    lemma_word_pushed(m.actions, a, t.key());
    lemma_alike_balanced(t, handed, m, m.queued(a).0);
}

proof fn lemma_reoffered_balanced(t: Account, handed: Seq<Action>, m: CoreModel, idx: int)
    requires
        t.balanced(handed, m),
        0 <= idx < m.conns.len(),
        m.conns[idx] is Some,
    ensures
        t.balanced(handed, m.reoffered(idx)),
        m.reoffered(idx).conns.len() == m.conns.len(),
{
    reveal(CoreModel::reoffered);
    reveal(CoreModel::connected_offered);
    let a = Action::App(m.app_event(idx, ConnEvent::Connected));
    let c = m.conns[idx]->0;
    lemma_queued_balanced(t, handed, m, a);
    lemma_with_conn_balanced(
        t,
        handed,
        m.queued(a).0,
        idx,
        c.with(Tcb { reported: true, ..c.tcb }),
    );
}

proof fn lemma_reaped_balanced(
    t: Account,
    handed: Seq<Action>,
    m: CoreModel,
    now: Instant,
    idx: int,
)
    requires
        t.balanced(handed, m),
        0 <= idx < m.conns.len(),
    ensures
        t.balanced(handed, m.reaped(now, idx)),
        m.reaped(now, idx).conns.len() == m.conns.len(),
{
    reveal(CoreModel::reaped);
    let r = m.reconciled(now, idx);
    lemma_reconciled_balanced(t, handed, m, now, idx);
    let n = m.reaped(now, idx);
    if r.emitted[idx] == Timers::idle() {
        reveal(Account::balanced);
        assert(n.told_deadline(t.sock, t.kind) == r.told_deadline(t.sock, t.kind));
    }
}

proof fn lemma_slot_swept_balanced(
    t: Account,
    handed: Seq<Action>,
    m: CoreModel,
    now: Instant,
    idx: int,
)
    requires
        t.balanced(handed, m),
        0 <= idx < m.conns.len(),
    ensures
        t.balanced(handed, m.slot_swept(now, idx)),
        m.slot_swept(now, idx).conns.len() == m.conns.len(),
{
    reveal(CoreModel::slot_swept);
    if let Some(c) = m.conns[idx] {
        if c.tcb.state is Closed {
            lemma_reaped_balanced(t, handed, m, now, idx);
        } else {
            let n = c.path_aged(now).timers_updated(now);
            let a = m.with_conn(idx, Some(n));
            lemma_with_conn_balanced(t, handed, m, idx, n);
            lemma_reoffered_balanced(t, handed, a, idx);
            lemma_reconciled_balanced(t, handed, a.reoffered(idx), now, idx);
        }
    }
}

proof fn lemma_swept_balanced(
    t: Account,
    handed: Seq<Action>,
    m: CoreModel,
    now: Instant,
    n: nat,
)
    requires
        t.balanced(handed, m),
        n <= m.conns.len(),
    ensures
        t.balanced(handed, m.swept(now, n)),
        m.swept(now, n).conns.len() == m.conns.len(),
    decreases n,
{
    if n > 0 {
        lemma_swept_balanced(t, handed, m, now, (n - 1) as nat);
        lemma_slot_swept_balanced(t, handed, m.swept(now, (n - 1) as nat), now, n - 1);
    }
}

proof fn lemma_slot_reconciled_balanced(
    t: Account,
    handed: Seq<Action>,
    m: StackModel,
    now: Instant,
    slot: int,
)
    requires
        t.balanced(handed, m.host),
    ensures
        t.balanced(handed, m.slot_reconciled(now, slot).host),
{
    reveal(StackModel::predecessor_cancelled);
    reveal(StackModel::slot_timer_reconciled);
    if let Some((g, _)) = m.emitted_reasm[slot] {
        let key = TimerKey::Reasm { slot: slot as u8, generation: g };
        lemma_queued_balanced(t, handed, m.host, Action::CancelTimer { key });
    }
    let a = m.predecessor_cancelled(slot).0;
    let key = TimerKey::Reasm { slot: slot as u8, generation: a.slots[slot].generation };
    lemma_queued_balanced(t, handed, a.host, Action::CancelTimer { key });
    if let Some(d) = a.slot_deadline(slot) {
        lemma_queued_balanced(t, handed, a.host, Action::StartTimer { key, after: d - now });
    }
}

proof fn lemma_slots_reconciled_balanced(
    t: Account,
    handed: Seq<Action>,
    m: StackModel,
    now: Instant,
    n: nat,
)
    requires
        t.balanced(handed, m.host),
    ensures
        t.balanced(handed, m.slots_reconciled(now, n).host),
    decreases n,
{
    if n > 0 {
        lemma_slots_reconciled_balanced(t, handed, m, now, (n - 1) as nat);
        lemma_slot_reconciled_balanced(
            t,
            handed,
            m.slots_reconciled(now, (n - 1) as nat),
            now,
            n - 1,
        );
    }
}

proof fn lemma_polled_balanced(t: Account, handed: Seq<Action>, m: StackModel, now: Instant)
    requires
        t.balanced(handed, m.host),
    ensures
        t.balanced(and_handed(handed, m.polled(now).1), m.polled(now).0.host),
{
    lemma_drained_balanced(t, handed, m.host, now);
    let (r, a, d) = m.host.drained(now);
    if a is None {
        let x = m.with_host(r);
        lemma_swept_balanced(t, handed, x.host, now, x.host.conns.len());
        let y = x.with_host(x.host.swept(now, x.host.conns.len()));
        lemma_slots_reconciled_balanced(t, handed, y, now, y.slots.len());
        let z = x.swept(now).host;
        if z.actions.len() > 0 {
            lemma_popped_balanced(t, handed, z);
        }
    }
}

// ----- Everything else -----

proof fn lemma_input_balanced(t: Account, handed: Seq<Action>, m: StackModel, input: Input)
    requires
        t.balanced(handed, m.host),
        !(input is Poll),
        !(input is Timer),
    ensures
        t.balanced(handed, m.stepped(input).0.host),
{
    lemma_inputs_tell_nothing(m, input);
    lemma_told_nothing_balanced(t, handed, m.host, m.stepped(input).0.host);
}

proof fn lemma_told_nothing_balanced(t: Account, handed: Seq<Action>, a: CoreModel, b: CoreModel)
    requires
        t.balanced(handed, a),
        tells_nothing(a, b),
    ensures
        t.balanced(handed, b),
{
    reveal(tells_nothing);
    lemma_timeless_words(a.actions, b.actions, t.key());
    lemma_alike_balanced(t, handed, a, b);
}

proof fn lemma_timer_balanced(
    t: Account,
    handed: Seq<Action>,
    m: StackModel,
    now: Instant,
    key: TimerKey,
)
    requires
        t.balanced(handed, m.host),
        key != t.key(),
    ensures
        t.balanced(handed, m.timer_fired(now, key).host),
{
    match key {
        TimerKey::Reasm { slot, generation } => {},
        TimerKey::Conn { sock, kind } => {
            reveal(CoreModel::timer_fired);
            let idx = sock.index as int;
            if idx < m.host.conns.len() && m.host.generations[idx] == sock.generation {
                let a = CoreModel {
                    emitted: m.host.emitted.update(idx, m.host.emitted[idx].without(kind)),
                    ..m.host
                };
                assert(t.balanced(handed, a)) by {
                    reveal(Account::balanced);
                    assert(a.told_deadline(t.sock, t.kind) == m.host.told_deadline(t.sock, t.kind));
                }
                lemma_tells_nothing(a, a);
                if let Some(c) = a.conns[idx] {
                    let (x, fx) = c.fired(now, kind, FxModel::empty());
                    lemma_conn_effects(a, now, idx, x, fx);
                    lemma_told_nothing_balanced(t, handed, a, m.timer_fired(now, key).host);
                }
            }
        },
    }
}

// ----- Runs -----

/// The actions among what came back, in order.
pub open spec fn handed_out(outs: Seq<Output>) -> Seq<Action>
    decreases outs.len(),
{
    if outs.len() == 0 {
        Seq::empty()
    } else {
        match outs.last() {
            Output::Polled(a, d) => and_handed(handed_out(outs.drop_last()), a),
            _ => handed_out(outs.drop_last()),
        }
    }
}

/// Whether this timer fires during the run.
pub open spec fn fires(inputs: Seq<Input>, key: TimerKey) -> bool {
    exists|i: int|
        0 <= i < inputs.len() && (#[trigger] inputs[i] matches Input::Timer(now, k) && k == key)
}

proof fn lemma_run_balanced(t: Account, m: StackModel, inputs: Seq<Input>)
    requires
        t.balanced(Seq::empty(), m.host),
        m.reasm_tables_ok(),
        !fires(inputs, t.key()),
    ensures
        t.balanced(handed_out(m.replayed(inputs).1), m.replayed(inputs).0.host),
        m.replayed(inputs).0.reasm_tables_ok(),
    decreases inputs.len(),
{
    if inputs.len() > 0 {
        let init = inputs.drop_last();
        let last = inputs.last();
        assert(!fires(init, t.key())) by {
            assert forall|i: int| 0 <= i < init.len() implies !(#[trigger] init[i]
                matches Input::Timer(now, k) && k == t.key()) by {
                assert(init[i] == inputs[i]);
            }
        }
        lemma_run_balanced(t, m, init);
        let (x, outs) = m.replayed(init);
        let handed = handed_out(outs);
        let all = m.replayed(inputs).1;
        assert(all.drop_last() =~= outs && all.last() == x.stepped(last).1);
        match last {
            Input::Poll(now) => {
                lemma_polled_balanced(t, handed, x, now);
                lemma_polled_keeps_tables(x, now);
            },
            Input::Timer(now, key) => {
                assert(inputs[inputs.len() - 1] == last);
                lemma_timer_balanced(t, handed, x, now, key);
            },
            _ => {
                lemma_input_balanced(t, handed, x, last);
                lemma_inputs_tell_nothing(x, last);
            },
        }
    }
}

/// A timer action that the runtime is owed is handed out before the next poll
/// that has nothing to hand out. Say the deadline that the runtime was told of
/// a timer differs from the wanted one, as after its action found no room in
/// the queue. Then, whatever happens until a poll hands out nothing, if by then
/// the wanted deadline is what it was, and the timer did not fire: an action for
/// it was handed out that was not queued yet at the start, and the last one
/// starts the timer if it is wanted, and cancels it if not.
pub proof fn owed_timer_actions_are_handed_out(
    m: StackModel,
    inputs: Seq<Input>,
    now: Instant,
    sock: SocketId,
    kind: TimerKind,
)
    requires
        m.host.tables_ok(),
        m.reasm_tables_ok(),
        m.host.told_deadline(sock, kind) != m.host.wanted_deadline(sock, kind),
        !fires(inputs, TimerKey::Conn { sock, kind }),
        m.replayed(inputs).0.polled(now).1 is None,
        m.replayed(inputs).0.polled(now).0.host.wanted_deadline(sock, kind)
            == m.host.wanted_deadline(sock, kind),
    ensures
        ({
            let key = TimerKey::Conn { sock, kind };
            let handed = handed_out(m.replayed(inputs).1);
            &&& words(handed, key) > words(m.host.actions, key)
            &&& last_word(handed, key) == Some(m.host.wanted_deadline(sock, kind) is Some)
        }),
{
    let t = Account::opened(m.host, sock, kind);
    assert(t.balanced(Seq::empty(), m.host)) by {
        reveal(Account::balanced);
    }
    lemma_run_balanced(t, m, inputs);
    let x = m.replayed(inputs).0;
    let handed = handed_out(m.replayed(inputs).1);
    assert(x.host.tables_ok()) by {
        reveal(Account::balanced);
    }
    lemma_polled_balanced(t, handed, x, now);
    quiescent_timers_are_faithful(x, now);
    let n = x.polled(now).0.host;
    reveal(Account::balanced);
    assert(n.actions =~= Seq::empty());
    if sock.index < n.conns.len() {
        assert(slot_faithful(n, sock.index as int));
    }
}

} // verus!
