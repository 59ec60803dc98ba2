//! Sessions: what an application does with one connection, as decisions apart
//! from any I/O. A runtime hands in the stack's events and the results of its
//! calls, and asks what to do next.
use crate::types::{AppEvent, CloseReason, SocketId};
use vstd::prelude::*;

verus! {

/// What a session wants done next. The runtime does it and reports the outcome.
#[derive(Debug, Clone, Copy, PartialEq, Eq, Structural)]
pub enum Step {
    /// Nothing for now: serve the stack, hand in its events, start a new round.
    Rest,
    /// Read what arrived, and report it.
    Read(SocketId),
    /// Offer the message from this offset on for sending, and report how much
    /// was accepted.
    Send(SocketId, usize),
    /// Close our side, and report that.
    Close(SocketId),
}

/// How far a session is in the current round.
#[derive(Debug, Clone, Copy, PartialEq, Eq, Structural)]
pub enum Stage {
    /// Bytes are to be read.
    Reading,
    /// Bytes are to be sent.
    Sending,
    /// It is to be decided whether to close.
    Closing,
    /// The round is over.
    Over,
}

/// An echo server for one accepted connection: it sends back what it reads,
/// and closes once the peer did and everything is sent back.
pub struct EchoServer {
    /// The accepted connection.
    pub sock: Option<SocketId>,
    /// Bytes read and not sent back yet.
    pub pending: Vec<u8>,
    /// The peer finished sending.
    pub peer_fin: bool,
    /// How far the round is.
    pub stage: Stage,
}

/// Model of an echo server.
#[verifier::ext_equal]
pub struct EchoModel {
    /// The accepted connection.
    pub sock: Option<SocketId>,
    /// Bytes read and not sent back yet.
    pub pending: Seq<u8>,
    /// The peer finished sending.
    pub peer_fin: bool,
    /// How far the round is.
    pub stage: Stage,
}

impl View for EchoServer {
    type V = EchoModel;

    open spec fn view(&self) -> EchoModel {
        EchoModel {
            sock: self.sock,
            pending: self.pending@,
            peer_fin: self.peer_fin,
            stage: self.stage,
        }
    }
}

impl EchoModel {
    /// A server without a connection.
    pub open spec fn idle() -> EchoModel {
        EchoModel { sock: None, pending: Seq::empty(), peer_fin: false, stage: Stage::Over }
    }

    /// With an event taken note of: an accepted connection is served from now
    /// on, and the end of its stream is remembered.
    pub open spec fn noted(self, ev: AppEvent) -> EchoModel {
        match ev {
            AppEvent::Connected { sock, via_listener: Some(_) } => EchoModel {
                sock: Some(sock),
                ..self
            },
            AppEvent::PeerFinReceived { sock } => EchoModel {
                peer_fin: self.peer_fin || self.sock == Some(sock),
                ..self
            },
            _ => self,
        }
    }

    /// What is to be done next. A round reads until nothing is left to read,
    /// then sends until nothing is pending or nothing more is accepted, and
    /// closes if the peer finished and nothing is pending.
    pub open spec fn next(self) -> Step {
        match (self.sock, self.stage) {
            (Some(s), Stage::Reading) => Step::Read(s),
            (Some(s), Stage::Sending) => if self.pending.len() > 0 {
                Step::Send(s, 0)
            } else if self.peer_fin {
                Step::Close(s)
            } else {
                Step::Rest
            },
            (Some(s), Stage::Closing) => if self.pending.len() == 0 && self.peer_fin {
                Step::Close(s)
            } else {
                Step::Rest
            },
            _ => Step::Rest,
        }
    }

    /// With `data` read; nothing read ends the reading.
    pub open spec fn read(self, data: Seq<u8>) -> EchoModel {
        if data.len() == 0 {
            EchoModel { stage: Stage::Sending, ..self }
        } else {
            EchoModel { pending: self.pending + data, ..self }
        }
    }

    /// With the first `n` pending bytes accepted for sending; none accepted
    /// ends the sending.
    pub open spec fn accepted(self, n: int) -> EchoModel {
        if n == 0 {
            EchoModel { stage: Stage::Closing, ..self }
        } else {
            EchoModel { pending: self.pending.skip(n), ..self }
        }
    }
}

impl EchoServer {
    /// A server without a connection.
    pub fn new() -> (r: Self)
        ensures
            r@ == EchoModel::idle(),
    {
        EchoServer { sock: None, pending: Vec::new(), peer_fin: false, stage: Stage::Over }
    }

    /// Take note of an event.
    pub fn on_event(&mut self, ev: AppEvent)
        ensures
            final(self)@ == old(self)@.noted(ev),
    {
        match ev {
            AppEvent::Connected { sock, via_listener: Some(_) } => {
                self.sock = Some(sock);
            },
            AppEvent::PeerFinReceived { sock } => {
                if self.sock == Some(sock) {
                    self.peer_fin = true;
                }
            },
            _ => {},
        }
    }

    /// Start a round.
    pub fn begin(&mut self)
        ensures
            final(self)@ == (EchoModel { stage: Stage::Reading, ..old(self)@ }),
    {
        self.stage = Stage::Reading;
    }

    /// What is to be done next.
    pub fn next(&self) -> (r: Step)
        ensures
            r == self@.next(),
    {
        let idle = self.pending.len() == 0;
        match (self.sock, self.stage) {
            (Some(s), Stage::Reading) => Step::Read(s),
            (Some(s), Stage::Sending) => if !idle {
                Step::Send(s, 0)
            } else if self.peer_fin {
                Step::Close(s)
            } else {
                Step::Rest
            },
            (Some(s), Stage::Closing) => if idle && self.peer_fin {
                Step::Close(s)
            } else {
                Step::Rest
            },
            _ => Step::Rest,
        }
    }

    /// Bytes were read; none if there were none, or the read was refused.
    pub fn on_read(&mut self, data: &[u8])
        ensures
            final(self)@ == old(self)@.read(data@),
    {
        if data.len() == 0 {
            self.stage = Stage::Sending;
            return;
        }
        let mut i: usize = 0;
        while i < data.len()
            invariant
                i <= data@.len(),
                self@ == (EchoModel {
                    pending: old(self)@.pending + data@.take(i as int),
                    ..old(self)@
                }),
            decreases data@.len() - i,
        {
            self.pending.push(data[i]);
            i += 1;
            assert(self.pending@ =~= old(self).pending@ + data@.take(i as int));
        }
        assert(data@.take(i as int) =~= data@);
    }

    /// The first `n` pending bytes were accepted for sending; none if the call
    /// was refused.
    pub fn on_accepted(&mut self, n: usize)
        requires
            n <= old(self)@.pending.len(),
        ensures
            final(self)@ == old(self)@.accepted(n as int),
    {
        if n == 0 {
            self.stage = Stage::Closing;
            return;
        }
        let rest = self.pending.split_off(n);
        self.pending = rest;
        assert(self.pending@ =~= old(self).pending@.skip(n as int));
    }

    /// Our side was closed; the round is over.
    pub fn on_closing(&mut self)
        ensures
            final(self)@ == (EchoModel { stage: Stage::Over, ..old(self)@ }),
    {
        self.stage = Stage::Over;
    }
}

/// What is pending is exactly what was read and not sent back: reading more
/// and sending some of it keep it so.
pub proof fn echo_returns_the_stream(
    m: EchoModel,
    stream: Seq<u8>,
    sent: int,
    more: Seq<u8>,
    n: int,
)
    requires
        0 <= sent <= stream.len(),
        m.pending == stream.skip(sent),
        0 <= n <= m.pending.len(),
    ensures
        m.read(more).pending == (stream + more).skip(sent),
        m.accepted(n).pending == stream.skip(sent + n),
{
    assert(m.pending + more =~= (stream + more).skip(sent));
    assert(stream + Seq::<u8>::empty() =~= stream);
    if more.len() == 0 {
        assert(more =~= Seq::<u8>::empty());
    }
    assert(m.pending.skip(n) =~= stream.skip(sent + n));
}

/// The server closes only once the peer finished and all that was read was
/// sent back.
pub proof fn echo_closes_after_the_stream(m: EchoModel, stream: Seq<u8>, sent: int)
    requires
        0 <= sent <= stream.len(),
        m.pending == stream.skip(sent),
        m.next() is Close,
    ensures
        m.peer_fin,
        sent == stream.len(),
{
}

/// When a client closes its side, and when it is done.
#[derive(Debug, Clone, Copy, PartialEq, Eq, Structural)]
pub enum CloseWhen {
    /// Close as soon as everything is sent; done once as much came back.
    AllSent,
    /// Close once the peer finished sending; done once the connection ended.
    PeerFinished,
}

/// A client of one connection that it opened: it sends a message of `total`
/// bytes as the send buffer takes it, reads what comes back, and closes its
/// side once.
#[derive(Debug, Clone, Copy, PartialEq, Eq, Structural)]
pub struct ClientSession {
    /// The connection.
    pub sock: SocketId,
    /// Length of the message.
    pub total: usize,
    /// How much of it was accepted for sending.
    pub sent: usize,
    /// How much was read.
    pub received: usize,
    /// When to close.
    pub close_when: CloseWhen,
    /// The connection is established.
    pub established: bool,
    /// The peer finished sending.
    pub peer_fin: bool,
    /// Our side was closed.
    pub closing: bool,
    /// Why the connection ended, once it did.
    pub ended: Option<CloseReason>,
    /// How far the round is.
    pub stage: Stage,
}

impl ClientSession {
    /// A session on a connection that is being opened.
    pub fn new(sock: SocketId, total: usize, close_when: CloseWhen) -> (r: Self)
        ensures
            r == (ClientSession {
                sock,
                total,
                sent: 0,
                received: 0,
                close_when,
                established: false,
                peer_fin: false,
                closing: false,
                ended: None,
                stage: Stage::Over,
            }),
    {
        ClientSession {
            sock,
            total,
            sent: 0,
            received: 0,
            close_when,
            established: false,
            peer_fin: false,
            closing: false,
            ended: None,
            stage: Stage::Over,
        }
    }

    /// With an event taken note of; those of other connections are ignored.
    pub open spec fn noted(self, ev: AppEvent) -> ClientSession {
        match ev {
            AppEvent::Connected { sock, .. } => if sock == self.sock {
                ClientSession { established: true, ..self }
            } else {
                self
            },
            AppEvent::PeerFinReceived { sock } => if sock == self.sock {
                ClientSession { peer_fin: true, ..self }
            } else {
                self
            },
            AppEvent::Closed { sock, reason } => if sock == self.sock {
                ClientSession { ended: Some(reason), ..self }
            } else {
                self
            },
            _ => self,
        }
    }

    /// What is to be done next, once the connection is established. A round
    /// offers the rest of the message, or closes when all is sent and that is
    /// the time to; reads until nothing is left to read; and closes if the
    /// peer finished and that is the time to.
    pub open spec fn next_step(self) -> Step {
        if !self.established {
            Step::Rest
        } else {
            match self.stage {
                Stage::Sending => if self.sent < self.total {
                    Step::Send(self.sock, self.sent)
                } else if self.close_when is AllSent && !self.closing {
                    Step::Close(self.sock)
                } else {
                    Step::Read(self.sock)
                },
                Stage::Reading => Step::Read(self.sock),
                Stage::Closing => if self.close_when is PeerFinished && self.peer_fin
                    && !self.closing {
                    Step::Close(self.sock)
                } else {
                    Step::Rest
                },
                Stage::Over => Step::Rest,
            }
        }
    }

    /// With `n` bytes read; none ends the reading.
    pub open spec fn read(self, n: int) -> ClientSession {
        if n == 0 {
            ClientSession { stage: Stage::Closing, ..self }
        } else {
            ClientSession {
                stage: Stage::Reading,
                received: if self.received + n > usize::MAX {
                    usize::MAX
                } else {
                    (self.received + n) as usize
                },
                ..self
            }
        }
    }

    /// With the next `n` bytes of the message accepted for sending.
    pub open spec fn accepted(self, n: int) -> ClientSession {
        ClientSession { stage: Stage::Reading, sent: (self.sent + n) as usize, ..self }
    }

    /// With our side closed: reading goes on, unless it is over.
    pub open spec fn shut(self) -> ClientSession {
        ClientSession {
            closing: true,
            stage: if self.stage is Sending {
                Stage::Reading
            } else {
                Stage::Over
            },
            ..self
        }
    }

    /// Take note of an event.
    pub fn on_event(&mut self, ev: AppEvent)
        ensures
            *final(self) == old(self).noted(ev),
    {
        match ev {
            AppEvent::Connected { sock, .. } => {
                if sock == self.sock {
                    self.established = true;
                }
            },
            AppEvent::PeerFinReceived { sock } => {
                if sock == self.sock {
                    self.peer_fin = true;
                }
            },
            AppEvent::Closed { sock, reason } => {
                if sock == self.sock {
                    self.ended = Some(reason);
                }
            },
            _ => {},
        }
    }

    /// Start a round.
    pub fn begin(&mut self)
        ensures
            *final(self) == (ClientSession { stage: Stage::Sending, ..*old(self) }),
    {
        self.stage = Stage::Sending;
    }

    /// What is to be done next.
    pub fn next(&self) -> (r: Step)
        ensures
            r == self.next_step(),
    {
        if !self.established {
            return Step::Rest;
        }
        match self.stage {
            Stage::Sending => if self.sent < self.total {
                Step::Send(self.sock, self.sent)
            } else if self.close_when == CloseWhen::AllSent && !self.closing {
                Step::Close(self.sock)
            } else {
                Step::Read(self.sock)
            },
            Stage::Reading => Step::Read(self.sock),
            Stage::Closing => if self.close_when == CloseWhen::PeerFinished && self.peer_fin
                && !self.closing {
                Step::Close(self.sock)
            } else {
                Step::Rest
            },
            Stage::Over => Step::Rest,
        }
    }

    /// `n` bytes were read; none if there were none, or the read was refused.
    pub fn on_read(&mut self, n: usize)
        ensures
            *final(self) == old(self).read(n as int),
    {
        if n == 0 {
            self.stage = Stage::Closing;
        } else {
            self.stage = Stage::Reading;
            self.received = self.received.saturating_add(n);
        }
    }

    /// The next `n` bytes of the message were accepted for sending; none if
    /// the call was refused.
    pub fn on_accepted(&mut self, n: usize)
        requires
            old(self).sent + n <= old(self).total,
        ensures
            *final(self) == old(self).accepted(n as int),
    {
        self.sent += n;
        self.stage = Stage::Reading;
    }

    /// Our side was closed; it is not closed again.
    pub fn on_closing(&mut self)
        ensures
            *final(self) == old(self).shut(),
    {
        self.closing = true;
        self.stage = if self.stage == Stage::Sending {
            Stage::Reading
        } else {
            Stage::Over
        };
    }

    /// Whether the session reached its end.
    pub fn done(&self) -> (r: bool)
        ensures
            r == match self.close_when {
                CloseWhen::AllSent => self.received >= self.total,
                CloseWhen::PeerFinished => self.ended is Some,
            },
    {
        match self.close_when {
            CloseWhen::AllSent => self.received >= self.total,
            CloseWhen::PeerFinished => self.ended.is_some(),
        }
    }
}

/// A client offers each byte of its message in turn, and closes only once all
/// of it is sent, or the peer finished.
pub proof fn client_sends_before_it_closes(c: ClientSession)
    ensures
        c.next_step() matches Step::Send(s, from) ==> s == c.sock && from == c.sent && from
            < c.total,
        c.next_step() is Close ==> match c.close_when {
            CloseWhen::AllSent => c.sent >= c.total,
            CloseWhen::PeerFinished => c.peer_fin,
        },
{
}

/// A client closes once: after it did, nothing that happens makes it close
/// again.
pub proof fn client_closes_once(c: ClientSession, ev: AppEvent, n: int)
    requires
        c.closing,
    ensures
        !(c.next_step() is Close),
        c.noted(ev).closing,
        c.read(n).closing,
        c.accepted(n).closing,
        c.shut().closing,
{
}

/// Byte `i` of the test pattern: bits 13 to 20 of `i` times 2654435761.
pub open spec fn pattern_byte(i: int) -> u8 {
    ((i * 2654435761) / 8192 % 256) as u8
}

/// A test pattern of `len` bytes.
pub fn pattern(len: u32) -> (r: Vec<u8>)
    ensures
        r@ == Seq::new(len as nat, |i: int| pattern_byte(i)),
{
    let mut out: Vec<u8> = Vec::new();
    let mut i: u32 = 0;
    while i < len
        invariant
            i <= len,
            out@.len() == i,
            forall|j: int| 0 <= j < i ==> #[trigger] out@[j] == pattern_byte(j),
        decreases len - i,
    {
        let x: u64 = i as u64 * 2654435761;
        out.push((x / 8192 % 256) as u8);
        i += 1;
    }
    assert(out@ =~= Seq::new(len as nat, |i: int| pattern_byte(i)));
    out
}

/// The first place at which two byte strings differ, as far as both reach.
pub fn first_mismatch(a: &[u8], b: &[u8]) -> (r: Option<usize>)
    ensures
        match r {
            Some(i) => {
                &&& i < a@.len() && i < b@.len()
                &&& a@[i as int] != b@[i as int]
                &&& forall|j: int| 0 <= j < i ==> a@[j] == b@[j]
            },
            None => forall|j: int| 0 <= j < a@.len() && j < b@.len() ==> a@[j] == b@[j],
        },
{
    let mut i: usize = 0;
    while i < a.len() && i < b.len()
        invariant
            i <= a@.len(),
            i <= b@.len(),
            forall|j: int| 0 <= j < i ==> a@[j] == b@[j],
        decreases a@.len() - i,
    {
        if a[i] != b[i] {
            return Some(i);
        }
        i += 1;
    }
    None
}

/// How the answer to a message compares to what was expected.
#[derive(Debug, Clone, Copy, PartialEq, Eq, Structural)]
pub enum Verdict {
    /// The same bytes.
    Intact,
    /// Another number of bytes.
    WrongLength,
    /// As many, but other bytes.
    WrongBytes,
}

/// Compare an answer to what was expected.
pub fn judge(got: &[u8], expected: &[u8]) -> (r: Verdict)
    ensures
        r is Intact <==> got@ == expected@,
        r is WrongLength <==> got@.len() != expected@.len(),
        r is WrongBytes <==> got@.len() == expected@.len() && got@ != expected@,
{
    if got.len() != expected.len() {
        return Verdict::WrongLength;
    }
    match first_mismatch(got, expected) {
        Some(_) => Verdict::WrongBytes,
        None => {
            assert(got@ =~= expected@);
            Verdict::Intact
        },
    }
}

/// Whether an empty line starts at a place of an HTTP message.
pub open spec fn blank_line_at(data: Seq<u8>, i: int) -> bool {
    &&& 0 <= i
    &&& i + 4 <= data.len()
    &&& data[i] == 13
    &&& data[i + 1] == 10
    &&& data[i + 2] == 13
    &&& data[i + 3] == 10
}

/// Where the header of an HTTP response ends: at the first empty line.
pub fn header_end(data: &[u8]) -> (r: Option<usize>)
    ensures
        match r {
            Some(i) => blank_line_at(data@, i as int) && forall|j: int|
                0 <= j < i ==> !(#[trigger] blank_line_at(data@, j)),
            None => forall|j: int| !(#[trigger] blank_line_at(data@, j)),
        },
{
    let n: usize = data.len();
    let mut i: usize = 0;
    while i < n && n - i >= 4
        invariant
            i <= n == data@.len(),
            forall|j: int| 0 <= j < i ==> !(#[trigger] blank_line_at(data@, j)),
        decreases n - i,
    {
        if data[i] == 13 && data[i + 1] == 10 && data[i + 2] == 13 && data[i + 3] == 10 {
            return Some(i);
        }
        i += 1;
    }
    None
}

/// Whether a response starts with `HTTP/1.1` or `HTTP/1.0`.
pub fn is_http(data: &[u8]) -> (r: bool)
    ensures
        r == (data@.len() >= 8 && data@.take(7) == seq![72u8, 84, 84, 80, 47, 49, 46] && (data@[7]
            == 49 || data@[7] == 48)),
{
    if data.len() < 8 {
        return false;
    }
    let r = data[0] == 72 && data[1] == 84 && data[2] == 84 && data[3] == 80 && data[4] == 47
        && data[5] == 49 && data[6] == 46 && (data[7] == 49 || data[7] == 48);
    proof {
        let p = seq![72u8, 84, 84, 80, 47, 49, 46];
        if r {
            assert(data@.take(7) =~= p);
        } else if data@.take(7) == p {
            assert(data@.take(7)[0] == 72 && data@.take(7)[1] == 84 && data@.take(7)[2] == 84
                && data@.take(7)[3] == 80 && data@.take(7)[4] == 47 && data@.take(7)[5] == 49
                && data@.take(7)[6] == 46);
        }
    }
    r
}

/// A client makes progress: once connected it offers the next byte that was not
/// accepted yet, whenever it is its turn to send, and closes when it is time,
/// but not twice.
pub proof fn client_makes_progress(c: ClientSession)
    requires
        c.established,
    ensures
        c.stage is Sending && c.sent < c.total ==> c.next_step() == Step::Send(c.sock, c.sent),
        c.stage is Sending && c.sent >= c.total && c.close_when is AllSent && !c.closing
            ==> c.next_step() == Step::Close(c.sock),
        c.stage is Reading ==> c.next_step() == Step::Read(c.sock),
        c.stage is Closing && c.close_when is PeerFinished && c.peer_fin && !c.closing
            ==> c.next_step() == Step::Close(c.sock),
        c.closing ==> !(c.next_step() is Close),
{
}

/// An echo server reads until there is nothing left to read, then offers what it
/// read, and closes when all is sent back and the peer has finished.
pub proof fn echo_server_makes_progress(m: EchoModel, s: SocketId)
    requires
        m.sock == Some(s),
    ensures
        m.stage is Reading ==> m.next() == Step::Read(s),
        m.stage is Sending && m.pending.len() > 0 ==> m.next() == Step::Send(s, 0),
        m.stage is Sending && m.pending.len() == 0 && m.peer_fin ==> m.next() == Step::Close(s),
        m.next() is Close ==> m.pending.len() == 0 && m.peer_fin,
{
}

} // verus!
