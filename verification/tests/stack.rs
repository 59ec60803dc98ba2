//! The stack.
use tcp_sans_io::config::Config;
use tcp_sans_io::time::Instant;
use tcp_sans_io::wire::{ipv4, tcp};
use tcp_sans_io::{Action, Error, IpAddr, SocketAddr, Stack, TimerKey, TimerKind};


// A constrained node with non-default, distinct buffer sizes. Proves the
// const-generic capacities propagate end-to-end (not just compile).
type SmallStack = Stack<2, 4096, 8192>;

fn seeded(addr: IpAddr) -> SmallStack {
    let mut s: SmallStack = Stack::new(Config::with_addr(addr));
    s.on_entropy([0x42; 16]);
    s
}

#[test]
fn custom_recv_capacity_drives_advertised_window() {
    let mut s = seeded(IpAddr::v4(10, 0, 0, 1));
    let now = Instant::zero();
    let _sock = s
        .connect(now, SocketAddr::new(IpAddr::v4(10, 0, 0, 2), 80))
        .unwrap();
    // Drain to the SYN datagram and parse its window field.
    let mut tx = [0u8; 1500];
    let mut window = None;
    while let Some(a) = s.poll_action(now, &mut tx) {
        if let Action::Transmit { len } = a {
            let (_h, _p) = ipv4::parse(&tx[..len]).unwrap();
            let seg = &tx[ipv4::HEADER_LEN..len];
            let (th, _o, _pl) = tcp::parse(
                seg,
                &IpAddr::v4(10, 0, 0, 1),
                &IpAddr::v4(10, 0, 0, 2),
            )
            .unwrap();
            window = Some(th.window);
            break;
        }
    }
    // RFC 7323 section 2.2: SYN windows are unscaled, so the field equals the
    // full RCV capacity (8192), not the default 16384.
    assert_eq!(window, Some(8192));
}

#[test]
fn slot_count_is_the_pool_size() {
    let mut s = seeded(IpAddr::v4(10, 0, 0, 1));
    let now = Instant::zero();
    // Two slots: two opens succeed, the third reports NoSlot.
    assert!(
        s.connect(now, SocketAddr::new(IpAddr::v4(10, 0, 0, 2), 1))
            .is_ok()
    );
    assert!(
        s.connect(now, SocketAddr::new(IpAddr::v4(10, 0, 0, 2), 2))
            .is_ok()
    );
    assert_eq!(
        s.connect(now, SocketAddr::new(IpAddr::v4(10, 0, 0, 2), 3)),
        Err(Error::NoSlot)
    );
}

/// A `StartTimer` shed by a full action queue must be re-offered by a later
/// reconcile, not recorded as already delivered: a persist timer lost this way
/// would deadlock a zero-window connection.
#[test]
fn timer_action_shed_on_full_queue_is_retried() {
    let mut s = seeded(IpAddr::v4(10, 0, 0, 1));
    let now = Instant::zero();
    let mut tx = [0u8; 1500];

    // Open a connection and drain to quiescence: the SYN is emitted and
    // its retransmit timer is armed runtime-side (emitted == desired).
    let sock = s
        .connect(now, SocketAddr::new(IpAddr::v4(10, 0, 0, 2), 80))
        .unwrap();
    while s.poll_action(now, &mut tx).is_some() {}
    let idx = sock.index as usize;
    assert!(
        s.host.emitted_conn_timers[idx].rexmit.is_some(),
        "SYN rexmit timer armed"
    );

    // Simulate the backlog moment the bug needed: the runtime has NOT
    // been told about the deadline, and the action queue is full.
    s.host.emitted_conn_timers[idx].rexmit = None;
    while s.host.actions.push_back(Action::RequestEntropy).is_ok() {}
    let shed_before = s.host.stats.actions_shed;

    s.host.reconcile_conn_timers(now, idx);

    // The shed StartTimer must be counted and must NOT be marked
    // emitted - that lie is what made the loss permanent.
    assert!(
        s.host.stats.actions_shed > shed_before,
        "shed action is observable in stats"
    );
    assert!(
        s.host.emitted_conn_timers[idx].rexmit.is_none(),
        "a shed StartTimer must not be recorded as delivered"
    );

    // Once the runtime catches up (drains the backlog), the diff is
    // still pending, so the sweep re-offers the StartTimer.
    let mut rearmed = false;
    while let Some(a) = s.poll_action(now, &mut tx) {
        if let Action::StartTimer {
            key:
                TimerKey::Conn {
                    sock: k,
                    kind: TimerKind::Rexmit,
                },
            ..
        } = a
        {
            if k == sock {
                rearmed = true;
            }
        }
    }
    assert!(
        rearmed,
        "retried StartTimer delivered after the backlog cleared"
    );
    assert!(
        s.host.emitted_conn_timers[idx].rexmit.is_some(),
        "emitted state reconverged"
    );
}

/// When a dead slot is reaped, its `CancelTimer` actions must carry the
/// generation the runtime armed the timers under. Bumping the slot
/// generation before emitting the cancels keys them to a connection
/// that never existed: the runtime cancels nothing and keeps phantom
/// timers armed until they fire (filtered as stale, but leaked until
/// then - a real leak for timer wheels keyed by `TimerKey`).
#[test]
fn reaped_slot_cancels_carry_the_armed_generation() {
    let mut s = seeded(IpAddr::v4(10, 0, 0, 1));
    let now = Instant::zero();
    let mut tx = [0u8; 1500];

    // SYN emitted: the runtime armed Rexmit under `sock`'s generation.
    let sock = s
        .connect(now, SocketAddr::new(IpAddr::v4(10, 0, 0, 2), 80))
        .unwrap();
    while s.poll_action(now, &mut tx).is_some() {}

    // Abort and reap. The drain must cancel the Rexmit timer with the
    // SAME key it was armed under.
    s.abort(now, sock).unwrap();
    let mut cancelled_original = false;
    while let Some(a) = s.poll_action(now, &mut tx) {
        if let Action::CancelTimer {
            key:
                TimerKey::Conn {
                    sock: k,
                    kind: TimerKind::Rexmit,
                },
        } = a
        {
            if k == sock {
                cancelled_original = true;
            }
        }
    }
    assert!(
        cancelled_original,
        "reaping emitted no CancelTimer for the armed key - phantom timer leaked"
    );
}
