//! IPv4 egress fragmentation (RFC 791 section 3.2).
//!
//! TCP itself never requires this (segments are sized within the path MTU
//! and sent with DF for PMTU discovery) but the IP layer provides
//! fragmentation for completeness and for future non-TCP upper layers. The
//! fragments come one at a time as `(header fields, payload slice)` pairs, so
//! no payload bytes are copied.
use crate::wire::ipv4::{Ipv4Emit, HEADER_LEN};
use vstd::prelude::*;

verus! {

/// Why a datagram could not be fragmented.
#[derive(Debug, Clone, Copy, PartialEq, Eq, Structural)]
pub enum FragError {
    /// DF is set and the datagram exceeds the MTU.
    DontFragment,
    /// The MTU cannot hold the header plus an 8-byte aligned payload chunk.
    MtuTooSmall,
}

/// The fragments of one IPv4 datagram that are still to come.
pub struct Fragments<'a> {
    base: Ipv4Emit,
    payload: &'a [u8],
    /// Per-fragment payload capacity, 8-byte aligned.
    chunk: usize,
    at: usize,
    done: bool,
}

/// A 16-bit offset, capped at the largest one.
pub open spec fn saturate16(x: int) -> u16 {
    if x > 0xffff {
        0xffff
    } else {
        x as u16
    }
}

/// Header fields of the fragment at offset `at` of the payload.
pub open spec fn fragment_header(base: Ipv4Emit, at: int, last: bool) -> Ipv4Emit {
    Ipv4Emit {
        frag_offset: saturate16(base.frag_offset + at),
        more_frags: base.more_frags || !last,
        ..base
    }
}

/// The fragments of `payload` from offset `at` on: as many bytes as `chunk`
/// allows in each, the more-fragments flag on all but the last.
pub open spec fn fragments_from(base: Ipv4Emit, payload: Seq<u8>, chunk: int, at: int) -> Seq<
    (Ipv4Emit, Seq<u8>),
>
    decreases payload.len() - at,
{
    if chunk <= 0 || at > payload.len() {
        Seq::empty()
    } else if payload.len() - at <= chunk {
        seq![(fragment_header(base, at, true), payload.skip(at))]
    } else {
        seq![(fragment_header(base, at, false), payload.subrange(at, at + chunk))]
            + fragments_from(base, payload, chunk, at + chunk)
    }
}

/// Payload bytes per fragment on a link of `mtu` bytes: what the header
/// leaves, rounded down to a multiple of 8.
pub open spec fn chunk_for(mtu: u16) -> int {
    if mtu < HEADER_LEN {
        0
    } else {
        (mtu - HEADER_LEN) / 8 * 8
    }
}

/// The fragments that a datagram is sent as, or why it cannot be.
pub open spec fn planned(base: Ipv4Emit, payload: Seq<u8>, mtu: u16) -> Result<
    Seq<(Ipv4Emit, Seq<u8>)>,
    FragError,
> {
    if HEADER_LEN + payload.len() <= mtu {
        Ok(seq![(fragment_header(base, 0, true), payload)])
    } else if base.dont_frag {
        Err(FragError::DontFragment)
    } else if chunk_for(mtu) == 0 {
        Err(FragError::MtuTooSmall)
    } else {
        Ok(fragments_from(base, payload, chunk_for(mtu), 0))
    }
}

/// Plan fragmentation of `payload` (the complete upper-layer payload of a
/// datagram whose header fields are `base`) for a link of `mtu` bytes.
///
/// Returns the ready-to-emit `(Ipv4Emit, payload)` pairs, to be drawn with
/// [`Fragments::next`]. If the datagram already fits, it comes as a single
/// "fragment".
pub fn fragment_v4(base: Ipv4Emit, payload: &[u8], mtu: u16) -> (r: Result<
    Fragments<'_>,
    FragError,
>)
    ensures
        match r {
            Ok(f) => f.wf() && planned(base, payload@, mtu) == Ok::<
                Seq<(Ipv4Emit, Seq<u8>)>,
                FragError,
            >(f@),
            Err(e) => planned(base, payload@, mtu) == Err::<Seq<(Ipv4Emit, Seq<u8>)>, FragError>(e),
        },
{
    let limit: usize = mtu as usize;
    if limit >= HEADER_LEN && payload.len() <= limit - HEADER_LEN {
        let chunk: usize = if payload.len() > 8 {
            payload.len()
        } else {
            8
        };
        let f = Fragments { base, payload, chunk, at: 0, done: false };
        assert(payload@.skip(0) =~= payload@);
        assert(f@ =~= seq![(fragment_header(base, 0, true), payload@)]);
        return Ok(f);
    }
    if base.dont_frag {
        return Err(FragError::DontFragment);
    }
    let chunk: usize = if limit < HEADER_LEN {
        0
    } else {
        (limit - HEADER_LEN) / 8 * 8
    };
    if chunk == 0 {
        return Err(FragError::MtuTooSmall);
    }
    Ok(Fragments { base, payload, chunk, at: 0, done: false })
}

impl<'a> View for Fragments<'a> {
    type V = Seq<(Ipv4Emit, Seq<u8>)>;

    /// The fragments still to come.
    closed spec fn view(&self) -> Seq<(Ipv4Emit, Seq<u8>)> {
        if self.done {
            Seq::empty()
        } else {
            fragments_from(self.base, self.payload@, self.chunk as int, self.at as int)
        }
    }
}

impl<'a> Fragments<'a> {
    /// Well-formedness: progress is inside the payload, and chunks are not
    /// empty.
    pub closed spec fn wf(&self) -> bool {
        self.chunk > 0 && self.at <= self.payload@.len()
    }

    /// The next fragment, if there is one left.
    pub fn next(&mut self) -> (r: Option<(Ipv4Emit, &'a [u8])>)
        requires
            old(self).wf(),
        ensures
            final(self).wf(),
            old(self)@.len() == 0 ==> r is None && final(self)@.len() == 0,
            old(self)@.len() > 0 ==> {
                &&& r matches Some((h, part)) && (h, part@) == old(self)@[0]
                &&& final(self)@ == old(self)@.drop_first()
            },
    {
        if self.done {
            return None;
        }
        let total: usize = self.payload.len();
        let remaining: usize = total - self.at;
        let take: usize = if remaining < self.chunk {
            remaining
        } else {
            self.chunk
        };
        let last = take == remaining;
        let mut h = self.base;
        h.frag_offset = if self.at <= 0xffff - self.base.frag_offset as usize {
            self.base.frag_offset + self.at as u16
        } else {
            0xffff
        };
        h.more_frags = self.base.more_frags || !last;
        let part: &'a [u8] = &self.payload[self.at..self.at + take];
        self.at = self.at + take;
        if last {
            self.done = true;
            assert(part@ =~= self.payload@.skip(old(self).at as int));
        }
        assert(self@ =~= old(self)@.drop_first());
        Some((h, part))
    }
}

/// The payloads of a list of fragments, one behind the other.
pub open spec fn joined(frags: Seq<(Ipv4Emit, Seq<u8>)>) -> Seq<u8>
    decreases frags.len(),
{
    if frags.len() == 0 {
        Seq::empty()
    } else {
        frags[0].1 + joined(frags.drop_first())
    }
}

proof fn lemma_fragments_from(base: Ipv4Emit, payload: Seq<u8>, chunk: int, at: int)
    requires
        chunk > 0,
        0 <= at <= payload.len(),
    ensures
        ({
            let f = fragments_from(base, payload, chunk, at);
            &&& f.len() > 0
            &&& joined(f) == payload.skip(at)
            &&& forall|i: int|
                0 <= i < f.len() ==> {
                    &&& (#[trigger] f[i]).1.len() <= chunk
                    &&& i < f.len() - 1 ==> f[i].1.len() == chunk && f[i].0.more_frags
                    &&& f[i].0 == fragment_header(base, at + i * chunk, i == f.len() - 1)
                }
        }),
    decreases payload.len() - at,
{
    let f = fragments_from(base, payload, chunk, at);
    reveal_with_fuel(joined, 2);
    if payload.len() - at <= chunk {
        assert(f.drop_first() =~= Seq::empty());
        assert(joined(f) =~= payload.skip(at));
        assert(0 * chunk == 0) by (nonlinear_arith);
    } else {
        lemma_fragments_from(base, payload, chunk, at + chunk);
        let g = fragments_from(base, payload, chunk, at + chunk);
        assert(f.drop_first() =~= g);
        assert(joined(f) =~= payload.skip(at));
        assert forall|i: int| 0 <= i < f.len() implies {
            &&& (#[trigger] f[i]).1.len() <= chunk
            &&& i < f.len() - 1 ==> f[i].1.len() == chunk && f[i].0.more_frags
            &&& f[i].0 == fragment_header(base, at + i * chunk, i == f.len() - 1)
        } by {
            if i > 0 {
                assert(f[i] == g[i - 1]);
                assert(chunk + (i - 1) * chunk == i * chunk) by (nonlinear_arith);
            } else {
                assert(i * chunk == 0) by (nonlinear_arith)
                    requires
                        i == 0,
                ;
            }
        }
    }
}

/// The fragments of a datagram put together are its payload; each fits the
/// link; all but the last carry a multiple of 8 bytes and the more-fragments
/// flag; and each says at which offset its bytes belong. (A fragment can be
/// fragmented further: its own offset is added, and its own flag kept.)
pub proof fn fragments_carry_the_payload(base: Ipv4Emit, payload: Seq<u8>, mtu: u16)
    requires
        planned(base, payload, mtu) is Ok,
        base.frag_offset + payload.len() <= 0xffff,
    ensures
        ({
            let f = planned(base, payload, mtu)->Ok_0;
            &&& f.len() > 0
            &&& joined(f) == payload
            &&& forall|i: int|
                0 <= i < f.len() ==> {
                    &&& HEADER_LEN + (#[trigger] f[i]).1.len() <= mtu
                    &&& f[i].0.more_frags == (base.more_frags || i < f.len() - 1)
                    &&& i < f.len() - 1 ==> f[i].1.len() % 8 == 0
                    &&& in_place(base, payload, f[i])
                }
        }),
{
    let f = planned(base, payload, mtu)->Ok_0;
    if HEADER_LEN + payload.len() <= mtu {
        reveal_with_fuel(joined, 2);
        assert(f.drop_first() =~= Seq::empty());
        assert(joined(f) =~= payload);
        assert(payload.subrange(0, payload.len() as int) =~= payload);
    } else {
        let chunk = chunk_for(mtu);
        lemma_fragments_from(base, payload, chunk, 0);
        assert(payload.skip(0) =~= payload);
        lemma_fragment_places(base, payload, chunk, 0);
    }
}

/// Whether a fragment carries the bytes of `payload` that belong at its offset,
/// counted from that of the datagram.
pub open spec fn in_place(base: Ipv4Emit, payload: Seq<u8>, f: (Ipv4Emit, Seq<u8>)) -> bool {
    let at = f.0.frag_offset - base.frag_offset;
    &&& 0 <= at
    &&& at + f.1.len() <= payload.len()
    &&& f.1 == payload.subrange(at, at + f.1.len())
}

proof fn lemma_fragment_places(base: Ipv4Emit, payload: Seq<u8>, chunk: int, at: int)
    requires
        chunk > 0,
        0 <= at <= payload.len(),
        base.frag_offset + payload.len() <= 0xffff,
    ensures
        ({
            let f = fragments_from(base, payload, chunk, at);
            forall|i: int| 0 <= i < f.len() ==> in_place(base, payload, #[trigger] f[i])
        }),
    decreases payload.len() - at,
{
    let f = fragments_from(base, payload, chunk, at);
    if payload.len() - at <= chunk {
        assert(payload.skip(at) =~= payload.subrange(at, payload.len() as int));
    } else {
        lemma_fragment_places(base, payload, chunk, at + chunk);
        let g = fragments_from(base, payload, chunk, at + chunk);
        assert forall|i: int| 0 <= i < f.len() implies in_place(
            base,
            payload,
            #[trigger] f[i],
        ) by {
            if i > 0 {
                assert(f[i] == g[i - 1]);
            }
        }
    }
}

/// A datagram that fits the link goes out whole; one that does not is cut,
/// unless it must not be, or the link leaves no room for eight bytes.
pub proof fn datagrams_are_cut_only_if_need_be(base: Ipv4Emit, payload: Seq<u8>, mtu: u16)
    ensures
        ({
            let r = planned(base, payload, mtu);
            let fits = 20 + payload.len() <= mtu;
            &&& fits ==> (r matches Ok(f) && f.len() == 1 && f[0].1 == payload)
            &&& !fits && base.dont_frag ==> r == Err::<Seq<(Ipv4Emit, Seq<u8>)>, FragError>(
                FragError::DontFragment,
            )
            &&& !fits && !base.dont_frag && mtu < 28 ==> r == Err::<
                Seq<(Ipv4Emit, Seq<u8>)>,
                FragError,
            >(FragError::MtuTooSmall)
            &&& !fits && !base.dont_frag && mtu >= 28 ==> r is Ok
        }),
{
}

} // verus!
