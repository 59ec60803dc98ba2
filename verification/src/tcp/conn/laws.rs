//! What a connection makes of resets, stray SYNs, and anything after its end.
use super::input::Segment;
use super::output::PlanModel;
use super::{ConnModel, FxModel, Tcb, Timers};
use crate::time::Instant;
use crate::types::{CloseReason, TimerKind};
use vstd::prelude::*;

verus! {

/// In TIME-WAIT a reset changes nothing (RFC 1337): the quarantine of the
/// sequence numbers lasts, and the connection stays in TIME-WAIT.
#[verifier::rlimit(30)]
pub proof fn time_wait_ignores_resets(
    m: ConnModel,
    now: Instant,
    seg: Segment,
    cap: int,
    fx: FxModel,
)
    requires
        m.tcb.state is TimeWait,
        seg.flags.rst(),
    ensures
        m.arrived(now, seg, cap, fx) == (m.timers_updated(now), fx),
        m.arrived(now, seg, cap, fx).0.tcb.state is TimeWait,
        m.arrived(now, seg, cap, fx).0.tcb.timers.wait == m.tcb.timers.wait,
{
    reveal(ConnModel::sync_arrived);
    reveal(ConnModel::unacceptable_arrived);
    reveal(Tcb::rexmit_settled);
    reveal(Tcb::persist_settled);
}

/// A SYN at a connection asks for a challenge ACK and does nothing else,
/// whatever its sequence number (RFC 5961 section 4.2).
pub proof fn syn_is_only_challenged(
    m: ConnModel,
    now: Instant,
    seg: Segment,
    cap: int,
    fx: FxModel,
)
    requires
        !(m.tcb.state is Closed),
        !(m.tcb.state is SynSent),
        seg.flags.syn(),
        !seg.flags.rst(),
    ensures
        m.arrived(now, seg, cap, fx) == (m.timers_updated(now), fx.with_challenge()),
{
    reveal(ConnModel::sync_arrived);
}

/// A reset that does not hit RCV.NXT exactly never ends a connection: at most
/// it is challenged (RFC 5961 section 3.2).
pub proof fn blind_reset_is_only_challenged(
    m: ConnModel,
    now: Instant,
    seg: Segment,
    cap: int,
    fx: FxModel,
)
    requires
        !(m.tcb.state is SynSent),
        seg.flags.rst(),
        seg.seq != m.tcb.rcv_nxt,
    ensures
        ({
            let (n, f) = m.arrived(now, seg, cap, fx);
            &&& n == m.timers_updated(now)
            &&& f == fx || f == fx.with_challenge()
        }),
{
    reveal(ConnModel::sync_arrived);
    reveal(ConnModel::unacceptable_arrived);
}

/// A closed connection is dead: it takes no segment, fires no timer, sends
/// nothing and wants no timer.
pub proof fn closed_connection_is_dead(
    m: ConnModel,
    now: Instant,
    seg: Segment,
    cap: int,
    kind: TimerKind,
    fx: FxModel,
)
    requires
        m.tcb.state is Closed,
        m.tcb.timers == Timers::idle(),
    ensures
        m.arrived(now, seg, cap, fx).1 == fx,
        m.arrived(now, seg, cap, fx).0.tcb.state is Closed,
        m.arrived(now, seg, cap, fx).0.tcb.timers == Timers::idle(),
        m.fired(now, kind, fx) == (m, fx),
        m.next_planned(now) == (m, None::<PlanModel>),
{
    reveal(Tcb::rexmit_settled);
    reveal(Tcb::persist_settled);
}

/// Whatever closes a connection stops its timers.
pub proof fn closing_stops_timers(m: ConnModel, reason: CloseReason, fx: FxModel)
    requires
        !(m.tcb.state is Closed),
    ensures
        m.closed(reason, fx).0.tcb.state is Closed,
        m.closed(reason, fx).0.tcb.timers == Timers::idle(),
        m.closed(reason, fx).0.tcb.close_reason == Some(reason),
{
}

} // verus!
