//! # tcp-sans-io
//!
//! A verified, sans-I/O, deterministic TCP/IPv4/IPv6 protocol core.
//!
//! ## Architecture
//!
//! The entire protocol core is a deterministic state machine:
//!
//! ```text
//! (State, Event) -> (NewState, Actions)
//! ```
//!
//! The core never touches clocks, sockets, threads, allocators, or entropy
//! sources. Every external dependency is virtualized:
//!
//! * **Time** enters as an [`Instant`](time::Instant) argument on every call
//!   and as [`TimerExpired`](Event::TimerExpired) events. The core emits
//!   [`Action::StartTimer`] / [`Action::CancelTimer`].
//! * **Packets** enter as [`Event::DatagramReceived`]; the core emits
//!   transmissions by writing full IP datagrams into a caller-provided buffer
//!   from [`Stack::poll_action`].
//! * **Entropy** enters as [`Event::EntropyProvided`]; the core asks for it
//!   with [`Action::RequestEntropy`] (used for RFC 6528 initial sequence
//!   numbers).
//! * **Memory** is fixed-capacity: no heap, no allocator.
//!
//! On top of the core, [`runtime`] keeps the deadlines that a stack asked for,
//! and [`session`] holds what an application decides about one connection (what
//! to send next, when to close, whether the bytes came back intact), apart from
//! the I/O that carries it out.
//!
//! ## Verification
//!
//! Every type has a mathematical model, and the contract of every function
//! says how it changes the model: a connection is a [`tcp::conn::ConnModel`],
//! the whole stack a [`stack::StackModel`]. What holds over any number of
//! calls (the sequence-space invariants, that each side reads a prefix of
//! what the other wrote, that the runtime's timers are the wanted ones
//! whenever a poll has nothing left to hand out) is stated as public proof
//! functions beside the code.
//!
//! ## Standards implemented
//!
//! * RFC 9293 (TCP) core state machine, RFC 1122 host requirements subset
//! * RFC 791 / RFC 815 (IPv4 + fragment reassembly), RFC 8200 (IPv6)
//! * RFC 1191 / RFC 8201 (Path MTU awareness)
//! * RFC 5681 / RFC 6582 (Reno congestion control, NewReno recovery)
//! * RFC 6298 (RTT estimation and RTO)
//! * RFC 6528 (cryptographic ISN generation, SipHash-2-4)
//! * RFC 5961 (blind reset / blind injection mitigation)
//! * RFC 2018 (SACK)
//! * RFC 7323 section 2 (window scaling; timestamps intentionally omitted)
//!
//! ## What the core is *not*
//!
//! There is no link layer here: the boundary is whole IP datagrams. ARP and
//! Neighbor Discovery belong to the link-layer adapter supplied by the
//! runtime (e.g. a TUN device needs neither).
pub mod config;
pub mod ip;
pub mod runtime;
pub mod session;
pub mod stack;
pub mod tcp;
pub mod time;
pub mod types;
pub mod util;
pub mod wire;

pub use stack::{Stack, StackStats};
pub use types::{
    Action, AppEvent, CloseReason, Error, Event, IpAddr, SocketAddr, SocketId, TimerKey, TimerKind,
};
