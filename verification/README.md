# tcp-sans-io

A verified, sans-I/O, deterministic TCP/IPv4/IPv6 protocol core.

The core never touches a clock, socket, thread, allocator, or entropy source.
Time is a value passed into every call, packets enter and leave as whole IP
datagrams, timers and entropy are requested as actions, and all memory is
inline. Given the same inputs the outputs are byte-identical.

## Layout

| Path | What it holds |
|---|---|
| `src/wire/` | IPv4, IPv6, ICMP and TCP headers; checksums |
| `src/ip/` | reassembly, fragmentation, path-MTU cache |
| `src/tcp/` | sequence numbers, buffers, SACK, RTT, congestion control, ISNs |
| `src/tcp/conn/` | one connection: model, API and timers, segment arrival, segment planning, laws |
| `src/stack/` | the host stack: demultiplexing, delivery, polling, serialization, laws |
| `src/runtime.rs` | the table of pending timers that a runtime keeps |
| `src/session.rs` | what an application does with one connection, as decisions apart from I/O |
| `app/` | a TUN runtime that embeds the stack and checks it against the kernel's TCP |
| `tests/` | unit tests, scripted segments, two-host scenarios, seed-driven impaired networks |

## What is proved

Every function's contract says how it changes a mathematical model of its
type. On top of that, public proof functions state what holds over any number
of calls, among them:

* the sequence-space invariant (`tcp/conn/model.rs`) is kept by every segment,
  timer, application call, path signal and transmission;
* over a whole life, from the handshake on, each side reads a prefix of what
  the other wrote, and every segment carries what was written at its sequence
  number (`tcp/conn/reading.rs`, `tcp/conn/runs.rs`);
* the peer's FIN is reported at most once and consumed in order
  (`tcp/conn/runs.rs`), TIME-WAIT ignores resets, a SYN or an inexact reset is
  at most challenged;
* a runtime that performs every action and drains after every input has exactly
  the wanted timers whenever the stack is quiet (`stack/timing.rs`), and a timer
  action that found no room in the queue is handed out before that
  (`stack/owed.rs`);
* a connection that waits for its peer has a timer running, planning and draining
  come to an end, and a silent peer is given up, also one that keeps its window
  closed (`tcp/conn/progress.rs`, `tcp/conn/silence.rs`, `stack/draining.rs`);
* a handle lives exactly as long as its connection, however often its slot is
  used again (`stack/handles.rs`);
* timers of a freed slot are refused, challenges are rate limited, martian
  sources get no reply, replay is deterministic (`stack/laws.rs`);
* fragments complete their datagram in whatever order they come
  (`ip/assembly.rs`);
* what is emitted parses back to what was put in (`wire/`), and whatever a poll
  transmits can be read and is exactly as long as its header says
  (`stack/transmitted.rs`).

## Runtime contract

Drain `poll_action` after every event or call with a buffer of at least one MTU,
keep one deadline per `TimerKey`, never let `now` go back, and answer
`RequestEntropy` with unpredictable bytes.
