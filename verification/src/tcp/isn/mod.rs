//! Initial sequence number generation (RFC 6528).
//!
//! `ISN = M + F(localip, localport, remoteip, remoteport, secretkey)` where
//! M is a 4-microsecond clock and F is SipHash-2-4 keyed by entropy the
//! runtime supplied via [`crate::Event::EntropyProvided`]. The protocol core
//! contains no entropy source of its own: given the same seed and the same
//! virtual clock, ISN generation replays exactly.
//!
//! Neither the key nor the generator can be formatted, so the secret cannot
//! end up in a log.
pub mod domain;

use super::seq::SeqNr;
use crate::time::{Duration, Instant};
use crate::types::{IpAddr, SocketAddr};
use crate::wire::{bytes16, write_bytes, write_u16};
use vstd::prelude::*;

verus! {

/// The four words of SipHash state.
pub type SipState = (u64, u64, u64, u64);

/// `x` rotated left by `n` bits.
pub open spec fn rotated(x: u64, n: u64) -> u64 {
    (x << n) | (x >> ((64 - n) as u64))
}

/// One SipRound.
pub open spec fn sip_round(s: SipState) -> SipState {
    let (v0, v1, v2, v3) = s;
    let a0 = v0.wrapping_add(v1);
    let a1 = rotated(v1, 13) ^ a0;
    let b0 = rotated(a0, 32);
    let a2 = v2.wrapping_add(v3);
    let a3 = rotated(v3, 16) ^ a2;
    let c0 = b0.wrapping_add(a3);
    let b3 = rotated(a3, 21) ^ c0;
    let b2 = a2.wrapping_add(a1);
    let b1 = rotated(a1, 17) ^ b2;
    (c0, b1, rotated(b2, 32), b3)
}

/// Absorb one message word: two rounds between two exclusive-ors.
pub open spec fn sip_absorb(s: SipState, m: u64) -> SipState {
    let t = sip_round(sip_round((s.0, s.1, s.2, s.3 ^ m)));
    (t.0 ^ m, t.1, t.2, t.3)
}

/// The little-endian 64-bit number at offset `at`; bytes beyond the end count
/// as zero.
pub open spec fn le64(s: Seq<u8>, at: int) -> u64 {
    let b = |i: int|
        if at + i < s.len() {
            s[at + i] as int
        } else {
            0
        };
    (b(0) + b(1) * 0x100 + b(2) * 0x1_0000 + b(3) * 0x100_0000 + b(4) * 0x1_0000_0000 + b(5)
        * 0x100_0000_0000 + b(6) * 0x1_0000_0000_0000 + b(7) * 0x100_0000_0000_0000) as u64
}

/// State after the first `n` whole words of `data`.
pub open spec fn sip_words(s: SipState, data: Seq<u8>, n: nat) -> SipState
    decreases n,
{
    if n == 0 {
        s
    } else {
        sip_absorb(sip_words(s, data, (n - 1) as nat), le64(data, 8 * (n - 1)))
    }
}

/// The word that closes the message: the bytes left over, and the length
/// modulo 256 as its top byte.
pub open spec fn sip_last_word(data: Seq<u8>) -> u64 {
    (le64(data, 8 * (data.len() / 8) as int) + (data.len() % 256) * 0x100_0000_0000_0000) as u64
}

/// SipHash-2-4 of `data` under the key `(k0, k1)`.
pub open spec fn siphash24(k0: u64, k1: u64, data: Seq<u8>) -> u64 {
    let init = (
        k0 ^ 0x736f_6d65_7073_6575,
        k1 ^ 0x646f_7261_6e64_6f6d,
        k0 ^ 0x6c79_6765_6e65_7261,
        k1 ^ 0x7465_6462_7974_6573,
    );
    let s = sip_absorb(sip_words(init, data, data.len() / 8), sip_last_word(data));
    let f = sip_round(sip_round(sip_round(sip_round((s.0, s.1, s.2 ^ 0xff, s.3)))));
    f.0 ^ f.1 ^ f.2 ^ f.3
}

/// The bytes of an endpoint: address, then port.
pub open spec fn endpoint_bytes(a: SocketAddr) -> Seq<u8> {
    a.ip.octets() + bytes16(a.port)
}

/// The little-endian bytes of a 64-bit number.
pub open spec fn le_bytes64(v: u64) -> Seq<u8> {
    seq![
        (v % 0x100) as u8,
        (v / 0x100 % 0x100) as u8,
        (v / 0x1_0000 % 0x100) as u8,
        (v / 0x100_0000 % 0x100) as u8,
        (v / 0x1_0000_0000 % 0x100) as u8,
        (v / 0x100_0000_0000 % 0x100) as u8,
        (v / 0x1_0000_0000_0000 % 0x100) as u8,
        (v / 0x100_0000_0000_0000) as u8,
    ]
}

/// RFC 6528 section 3: the 4-microsecond clock plus the keyed hash of the
/// 4-tuple, modulo 2^32.
pub open spec fn isn_value(
    key: SipHash24,
    now: Instant,
    local: SocketAddr,
    remote: SocketAddr,
) -> SeqNr {
    let f = siphash24(key.k0, key.k1, endpoint_bytes(local) + endpoint_bytes(remote));
    SeqNr((now.micros / 4 % 0x1_0000_0000) as u32).add((f % 0x1_0000_0000) as u32)
}

/// The message that a domain-separated hash of `value` covers.
pub open spec fn tagged(domain: u8, value: u64) -> Seq<u8> {
    seq![domain] + le_bytes64(value)
}

/// SipHash-2-4 (Aumasson & Bernstein), the F recommended by RFC 6528.
#[derive(Clone, Copy)]
pub struct SipHash24 {
    /// First half of the key.
    pub k0: u64,
    /// Second half of the key.
    pub k1: u64,
}

fn rotate(x: u64, n: u64) -> (r: u64)
    requires
        0 < n < 64,
    ensures
        r == rotated(x, n),
{
    (x << n) | (x >> (64 - n))
}

/// The little-endian 64-bit number at offset `at`, zero-padded.
fn read_le64(data: &[u8], at: usize) -> (r: u64)
    requires
        at <= data@.len(),
    ensures
        r == le64(data@, at as int),
        data@.len() - at < 8 ==> r < 0x100_0000_0000_0000,
{
    let n: usize = data.len() - at;
    let b0: u64 = if n > 0 {
        data[at] as u64
    } else {
        0
    };
    let b1: u64 = if n > 1 {
        data[at + 1] as u64
    } else {
        0
    };
    let b2: u64 = if n > 2 {
        data[at + 2] as u64
    } else {
        0
    };
    let b3: u64 = if n > 3 {
        data[at + 3] as u64
    } else {
        0
    };
    let b4: u64 = if n > 4 {
        data[at + 4] as u64
    } else {
        0
    };
    let b5: u64 = if n > 5 {
        data[at + 5] as u64
    } else {
        0
    };
    let b6: u64 = if n > 6 {
        data[at + 6] as u64
    } else {
        0
    };
    let b7: u64 = if n > 7 {
        data[at + 7] as u64
    } else {
        0
    };
    b0 + b1 * 0x100 + b2 * 0x1_0000 + b3 * 0x100_0000 + b4 * 0x1_0000_0000 + b5 * 0x100_0000_0000
        + b6 * 0x1_0000_0000_0000 + b7 * 0x100_0000_0000_0000
}

impl SipHash24 {
    /// Keyed hash of a byte string.
    pub fn hash(&self, data: &[u8]) -> (r: u64)
        ensures
            r == siphash24(self.k0, self.k1, data@),
    {
        let mut s: SipState = (
            self.k0 ^ 0x736f_6d65_7073_6575,
            self.k1 ^ 0x646f_7261_6e64_6f6d,
            self.k0 ^ 0x6c79_6765_6e65_7261,
            self.k1 ^ 0x7465_6462_7974_6573,
        );
        let ghost init = s;
        let n: usize = data.len();
        let words: usize = n / 8;
        let mut i: usize = 0;
        while i < words
            invariant
                i <= words == data@.len() / 8,
                n == data@.len(),
                8 * words <= n,
                s == sip_words(init, data@, i as nat),
            decreases words - i,
        {
            let m: u64 = read_le64(data, 8 * i);
            s = Self::absorb(s, m);
            i += 1;
        }
        let tail: u64 = read_le64(data, 8 * words);
        let m: u64 = tail + (data.len() % 256) as u64 * 0x100_0000_0000_0000;
        s = Self::absorb(s, m);
        s.2 = s.2 ^ 0xff;
        let f = Self::round(Self::round(Self::round(Self::round(s))));
        f.0 ^ f.1 ^ f.2 ^ f.3
    }

    fn absorb(s: SipState, m: u64) -> (r: SipState)
        ensures
            r == sip_absorb(s, m),
    {
        let t = Self::round(Self::round((s.0, s.1, s.2, s.3 ^ m)));
        (t.0 ^ m, t.1, t.2, t.3)
    }

    #[inline]
    fn round(s: SipState) -> (r: SipState)
        ensures
            r == sip_round(s),
    {
        let a0: u64 = s.0.wrapping_add(s.1);
        let a1: u64 = rotate(s.1, 13) ^ a0;
        let b0: u64 = rotate(a0, 32);
        let a2: u64 = s.2.wrapping_add(s.3);
        let a3: u64 = rotate(s.3, 16) ^ a2;
        let c0: u64 = b0.wrapping_add(a3);
        let b3: u64 = rotate(a3, 21) ^ c0;
        let b2: u64 = a2.wrapping_add(a1);
        let b1: u64 = rotate(a1, 17) ^ b2;
        (c0, b1, rotate(b2, 32), b3)
    }
}

/// ISN generator; unusable until seeded.
#[derive(Clone, Copy)]
pub struct IsnGenerator {
    /// The secret, once the runtime provided entropy.
    pub key: Option<SipHash24>,
}

impl Default for IsnGenerator {
    fn default() -> (r: Self)
        ensures
            r.key is None,
    {
        Self::new()
    }
}

impl IsnGenerator {
    /// Unseeded generator.
    pub fn new() -> (r: Self)
        ensures
            r.key is None,
    {
        IsnGenerator { key: None }
    }

    /// Seed (or re-seed) from runtime-provided entropy.
    pub fn seed(&mut self, bytes: [u8; 16])
        ensures
            final(self).key == Some(SipHash24 { k0: le64(bytes@, 0), k1: le64(bytes@, 8) }),
    {
        self.key = Some(SipHash24 { k0: read_le64(&bytes, 0), k1: read_le64(&bytes, 8) });
    }

    /// True once seeded; connections cannot be created before this.
    pub fn ready(&self) -> (r: bool)
        ensures
            r == (self.key is Some),
    {
        self.key.is_some()
    }

    /// RFC 6528 section 3 ISN for a connection 4-tuple at virtual time `now`.
    pub fn generate(&self, now: Instant, local: SocketAddr, remote: SocketAddr) -> (r: Option<
        SeqNr,
    >)
        ensures
            r == match self.key {
                None => None,
                Some(key) => Some(isn_value(key, now, local, remote)),
            },
    {
        match self.key {
            None => None,
            Some(key) => {
                let mut buf: [u8; 36] = [0u8; 36];
                let at: usize = put_endpoint(&mut buf, 0, &local);
                let end: usize = put_endpoint(&mut buf, at, &remote);
                assert(buf@.take(end as int) =~= endpoint_bytes(local) + endpoint_bytes(remote));
                assert(buf@.subrange(0, end as int) =~= buf@.take(end as int));
                let m: u32 = (now.as_micros() / 4 % 0x1_0000_0000) as u32;
                let f: u32 = (key.hash(&buf[0..end]) % 0x1_0000_0000) as u32;
                Some(SeqNr(m).add(f))
            },
        }
    }

    /// Keyed hash of a number in one of the domains of [`domain`]; `None`
    /// until seeded.
    pub fn keyed_hash(&self, domain: u8, value: u64) -> (r: Option<u64>)
        ensures
            r == match self.key {
                None => None,
                Some(key) => Some(siphash24(key.k0, key.k1, tagged(domain, value))),
            },
    {
        match self.key {
            None => None,
            Some(key) => {
                let msg: [u8; 9] = [
                    domain,
                    (value % 0x100) as u8,
                    (value / 0x100 % 0x100) as u8,
                    (value / 0x1_0000 % 0x100) as u8,
                    (value / 0x100_0000 % 0x100) as u8,
                    (value / 0x1_0000_0000 % 0x100) as u8,
                    (value / 0x100_0000_0000 % 0x100) as u8,
                    (value / 0x1_0000_0000_0000 % 0x100) as u8,
                    (value / 0x100_0000_0000_0000) as u8,
                ];
                assert(msg@ =~= tagged(domain, value));
                Some(key.hash(&msg))
            },
        }
    }
}

/// Write the bytes of an endpoint at `at`; returns the offset behind them.
fn put_endpoint(buf: &mut [u8; 36], at: usize, a: &SocketAddr) -> (r: usize)
    requires
        at <= 18,
    ensures
        r == at + endpoint_bytes(*a).len(),
        r <= 36,
        final(buf)@ == crate::wire::splice(old(buf)@, at as int, endpoint_bytes(*a)),
{
    let ghost start = buf@;
    let n: usize = match a.ip {
        IpAddr::V4(b) => {
            write_bytes(buf, at, &b);
            4
        },
        IpAddr::V6(b) => {
            write_bytes(buf, at, &b);
            16
        },
    };
    write_u16(buf, at + n, a.port);
    assert(buf@ =~= crate::wire::splice(start, at as int, endpoint_bytes(*a)));
    at + n + 2
}

/// Four microseconds of virtual time advance the ISN of a 4-tuple by one.
pub proof fn isn_follows_the_clock(
    key: SipHash24,
    now: Instant,
    local: SocketAddr,
    remote: SocketAddr,
    n: u32,
)
    requires
        now.micros + 4 * n <= u64::MAX,
    ensures
        isn_value(
            key,
            now + (Duration { micros: (4 * n) as u64 }),
            local,
            remote,
        ) == isn_value(key, now, local, remote).add(n),
{
    let m = (now.micros / 4) as int;
    assert((now.micros + 4 * n) / 4 == m + n);
    assert((m + n) % 0x1_0000_0000 == (m % 0x1_0000_0000 + n) % 0x1_0000_0000);
}

/// The messages hashed for initial sequence numbers and those hashed in the
/// tagged domains are never the same, nor are those of two domains.
pub proof fn hash_domains_are_separate(
    local: SocketAddr,
    remote: SocketAddr,
    d1: u8,
    v1: u64,
    d2: u8,
    v2: u64,
)
    ensures
        endpoint_bytes(local) + endpoint_bytes(remote) != tagged(d1, v1),
        d1 != d2 ==> tagged(d1, v1) != tagged(d2, v2),
{
    assert(tagged(d1, v1).len() == 9);
    assert((endpoint_bytes(local) + endpoint_bytes(remote)).len() >= 12);
    assert(tagged(d1, v1)[0] == d1);
    assert(tagged(d2, v2)[0] == d2);
}

} // verus!
