//! Internet checksum (RFC 1071) with IPv4/IPv6 pseudo-headers.
use crate::types::IpAddr;
use crate::wire::{bytes16, bytes32};
use vstd::prelude::*;

verus! {

/// What byte `b` at position `i` of a chunk counts, when the chunk starts at
/// an odd (or even) position of the whole: the first byte of a word is its
/// high byte.
pub open spec fn placed(b: u8, i: int, odd: bool) -> nat {
    if (i % 2 == 1) != odd {
        b as nat
    } else {
        b as nat * 256
    }
}

/// Sum of the 16-bit words of a chunk, the last one padded with zero. The
/// chunk starts in the middle of a word if `odd`.
pub open spec fn word_sum(s: Seq<u8>, odd: bool) -> nat
    decreases s.len(),
{
    if s.len() == 0 {
        0
    } else {
        word_sum(s.drop_last(), odd) + placed(s.last(), s.len() - 1, odd)
    }
}

/// The 16-bit ones-complement value of a sum: every carry out of the top is
/// added back at the bottom, so only the remainder by 2^16 - 1 is left, and
/// zero only for zero.
#[verifier::opaque]
pub open spec fn fold16(n: nat) -> nat {
    if n == 0 {
        0
    } else {
        ((n - 1) % 65535 + 1) as nat
    }
}

/// The Internet checksum of a byte string.
pub open spec fn internet_checksum(s: Seq<u8>) -> u16 {
    (0xffff - fold16(word_sum(s, false))) as u16
}

/// The pseudo-header that upper-layer checksums cover (RFC 9293 section 3.1,
/// RFC 8200 section 8.1).
pub open spec fn pseudo_header(src: IpAddr, dst: IpAddr, proto: u8, len: u32) -> Seq<u8> {
    if src is V4 {
        src.octets() + dst.octets() + bytes16(proto as u16) + bytes16((len % 0x1_0000) as u16)
    } else {
        src.octets() + dst.octets() + bytes32(len) + bytes16(proto as u16)
    }
}

proof fn lemma_fold_carry(hi: nat, lo: nat)
    ensures
        fold16(hi * 65536 + lo) == fold16(hi + lo),
{
    reveal(fold16);
    if hi + lo > 0 {
        vstd::arithmetic::div_mod::lemma_mod_multiples_vanish(hi as int, hi + lo - 1, 65535);
        assert(65535 * (hi as int) + (hi + lo - 1) == hi * 65536 + lo - 1);
    }
}

proof fn lemma_fold_sum(a: nat, b: nat)
    ensures
        fold16(fold16(a) + b) == fold16(a + b),
{
    reveal(fold16);
    if a > 0 {
        let q = (a - 1) / 65535;
        assert(a - 1 == q * 65535 + (a - 1) % 65535);
        assert(a + b - 1 == 65535 * q + (fold16(a) + b - 1));
        vstd::arithmetic::div_mod::lemma_mod_multiples_vanish(q, fold16(a) + b - 1, 65535);
    }
}

/// The word sum of two chunks in a row is the sum of theirs, the second one
/// starting at the parity that the first one leaves.
pub proof fn word_sum_of_chunks(a: Seq<u8>, b: Seq<u8>, odd: bool)
    ensures
        word_sum(a + b, odd) == word_sum(a, odd) + word_sum(b, odd != (a.len() % 2 == 1)),
    decreases b.len(),
{
    if b.len() == 0 {
        assert(a + b =~= a);
    } else {
        assert((a + b).drop_last() =~= a + b.drop_last());
        word_sum_of_chunks(a, b.drop_last(), odd);
    }
}

proof fn lemma_word_sum_splice(s: Seq<u8>, at: int, v: u16)
    requires
        0 <= at,
        at + 2 <= s.len(),
        at % 2 == 0,
        s[at] == 0,
        s[at + 1] == 0,
    ensures
        word_sum(crate::wire::splice(s, at, bytes16(v)), false) == word_sum(s, false) + v,
{
    let z = seq![0u8, 0u8];
    let head = s.take(at);
    let tail = s.skip(at + 2);
    assert(s =~= head + z + tail);
    word_sum_of_chunks(head + z, tail, false);
    word_sum_of_chunks(head, z, false);
    word_sum_of_chunks(head + bytes16(v), tail, false);
    word_sum_of_chunks(head, bytes16(v), false);
    lemma_word_sum_pair(0, 0);
    lemma_word_sum_pair((v / 256) as u8, (v % 256) as u8);
}

proof fn lemma_word_sum_pair(a: u8, b: u8)
    ensures
        word_sum(seq![a, b], false) == a * 256 + b,
{
    reveal_with_fuel(word_sum, 3);
    assert(seq![a, b].drop_last() =~= seq![a]);
    assert(seq![a].drop_last() =~= Seq::empty());
}

/// Placing the checksum of a byte string into a zeroed, word-aligned field of
/// it makes the checksum of the whole zero. This is how a receiver verifies.
pub proof fn checksum_field_verifies(s: Seq<u8>, at: int)
    requires
        0 <= at,
        at + 2 <= s.len(),
        at % 2 == 0,
        s[at] == 0,
        s[at + 1] == 0,
    ensures
        internet_checksum(crate::wire::splice(s, at, bytes16(internet_checksum(s)))) == 0,
{
    reveal(fold16);
    let w = word_sum(s, false);
    let c = internet_checksum(s);
    lemma_word_sum_splice(s, at, c);
    if w > 0 {
        let q = (w - 1) / 65535;
        assert(w - 1 == q * 65535 + (w - 1) % 65535);
        assert(w + c - 1 == 65535 * q + 65534);
        vstd::arithmetic::div_mod::lemma_mod_multiples_vanish(q, 65534, 65535);
    }
}

/// Incremental ones-complement checksum accumulator.
///
/// Chunks of any length may be added in sequence; byte parity is carried
/// across calls so odd-length chunks compose correctly (needed because TCP
/// payloads may arrive as two ring-buffer slices).
#[derive(Debug, Clone, Copy)]
pub struct Checksum {
    sum: u32,
    odd: bool,
}

impl Default for Checksum {
    fn default() -> (r: Self)
        ensures
            r.covers(Seq::empty()),
    {
        Self::new()
    }
}

impl Checksum {
    /// Ones-complement value of everything added so far.
    pub closed spec fn value(&self) -> nat {
        fold16(self.sum as nat)
    }

    /// Whether an odd number of bytes was added so far.
    pub closed spec fn is_odd(&self) -> bool {
        self.odd
    }

    /// The accumulator holds what adding the bytes of `s` to a fresh one gives.
    pub open spec fn covers(&self, s: Seq<u8>) -> bool {
        &&& self.value() == fold16(word_sum(s, false))
        &&& self.is_odd() == (s.len() % 2 == 1)
    }

    /// Fresh accumulator.
    pub fn new() -> (r: Self)
        ensures
            r.covers(Seq::empty()),
    {
        proof {
            lemma_fold_small(0);
        }
        Checksum { sum: 0, odd: false }
    }

    fn add_word(&mut self, v: u32)
        requires
            v <= 0xffff,
        ensures
            final(self).value() == fold16(old(self).value() + v as nat),
            final(self).odd == old(self).odd,
    {
        let ghost before = self.sum as nat;
        if self.sum > 0x00ff_ffff {
            proof {
                lemma_fold_carry((self.sum / 0x1_0000) as nat, (self.sum % 0x1_0000) as nat);
            }
            self.sum = self.sum % 0x1_0000 + self.sum / 0x1_0000;
        }
        proof {
            lemma_fold_sum(before, v as nat);
            lemma_fold_sum(self.sum as nat, v as nat);
        }
        self.sum = self.sum + v;
    }

    /// Add a chunk of bytes.
    pub fn add_bytes(&mut self, data: &[u8])
        ensures
            final(self).value() == fold16(
                old(self).value() + word_sum(data@, old(self).is_odd()),
            ),
            final(self).is_odd() == (old(self).is_odd() != (data@.len() % 2 == 1)),
            forall|s: Seq<u8>| #[trigger]
                old(self).covers(s) ==> final(self).covers(s + data@),
    {
        let ghost odd = self.odd;
        let ghost start = self.value();
        let mut i: usize = 0;
        proof {
            lemma_fold_small(self.sum as nat);
            lemma_fold_small(start);
            assert(data@.take(0) =~= Seq::empty());
        }
        if self.odd && data.len() > 0 {
            proof {
                lemma_word_sum_step(data@, 0, odd);
            }
            self.add_word(data[0] as u32);
            self.odd = false;
            i = 1;
        }
        while data.len() - i > 1
            invariant
                i <= data@.len(),
                !self.odd || data@.len() == 0,
                i > 0 || !odd || data@.len() == 0,
                data@.len() == 0 ==> self.odd == odd,
                data@.len() > 0 ==> (i % 2 == 1) == odd,
                self.value() == fold16(start + word_sum(data@.take(i as int), odd)),
            decreases data@.len() - i,
        {
            proof {
                lemma_word_sum_step(data@, i as int, odd);
                lemma_word_sum_step(data@, i + 1, odd);
                lemma_fold_sum(
                    start + word_sum(data@.take(i as int), odd),
                    (data@[i as int] as nat) * 256 + data@[i + 1] as nat,
                );
            }
            self.add_word(data[i] as u32 * 256 + data[i + 1] as u32);
            i += 2;
        }
        if i < data.len() {
            proof {
                lemma_word_sum_step(data@, i as int, odd);
                lemma_fold_sum(
                    start + word_sum(data@.take(i as int), odd),
                    data@[i as int] as nat * 256,
                );
            }
            self.add_word(data[i] as u32 * 256);
            self.odd = true;
            i += 1;
        }
        assert(data@.take(i as int) =~= data@);
        proof {
            assert forall|s: Seq<u8>| #[trigger] old(self).covers(s) implies self.covers(
                s + data@,
            ) by {
                word_sum_of_chunks(s, data@, false);
                lemma_fold_sum(word_sum(s, false), word_sum(data@, odd));
            }
        }
    }

    /// Add a 16-bit value (as if two big-endian bytes were appended).
    pub fn add_u16(&mut self, v: u16)
        ensures
            final(self).value() == fold16(
                old(self).value() + word_sum(bytes16(v), old(self).is_odd()),
            ),
            final(self).is_odd() == old(self).is_odd(),
            forall|s: Seq<u8>| #[trigger]
                old(self).covers(s) ==> final(self).covers(s + bytes16(v)),
    {
        let b: [u8; 2] = [(v / 256) as u8, (v % 256) as u8];
        assert(b@ =~= bytes16(v));
        self.add_bytes(&b);
    }

    /// Add the IPv4 pseudo-header (RFC 9293 section 3.1) for upper-layer
    /// checksums.
    pub fn add_pseudo_v4(&mut self, src: &[u8; 4], dst: &[u8; 4], proto: u8, len: u16)
        ensures
            forall|s: Seq<u8>| #[trigger]
                old(self).covers(s) ==> final(self).covers(
                    s + pseudo_header(IpAddr::V4(*src), IpAddr::V4(*dst), proto, len as u32),
                ),
    {
        self.add_bytes(src);
        self.add_bytes(dst);
        self.add_u16(proto as u16);
        self.add_u16(len);
        proof {
            let p = pseudo_header(IpAddr::V4(*src), IpAddr::V4(*dst), proto, len as u32);
            assert forall|s: Seq<u8>| #[trigger] old(self).covers(s) implies self.covers(s + p) by {
                assert(s + src@ + dst@ + bytes16(proto as u16) + bytes16(len) =~= s + p);
            }
        }
    }

    /// Add the IPv6 pseudo-header (RFC 8200 section 8.1).
    pub fn add_pseudo_v6(&mut self, src: &[u8; 16], dst: &[u8; 16], proto: u8, len: u32)
        ensures
            forall|s: Seq<u8>| #[trigger]
                old(self).covers(s) ==> final(self).covers(
                    s + pseudo_header(IpAddr::V6(*src), IpAddr::V6(*dst), proto, len),
                ),
    {
        self.add_bytes(src);
        self.add_bytes(dst);
        let n: [u8; 4] = [
            (len / 0x100_0000) as u8,
            (len / 0x1_0000 % 0x100) as u8,
            (len / 0x100 % 0x100) as u8,
            (len % 0x100) as u8,
        ];
        assert(n@ =~= bytes32(len));
        self.add_bytes(&n);
        self.add_u16(proto as u16);
        proof {
            let p = pseudo_header(IpAddr::V6(*src), IpAddr::V6(*dst), proto, len);
            assert forall|s: Seq<u8>| #[trigger] old(self).covers(s) implies self.covers(s + p) by {
                assert(s + src@ + dst@ + bytes32(len) + bytes16(proto as u16) =~= s + p);
            }
        }
    }

    /// Add the pseudo-header matching the family of `src`/`dst`, which must
    /// be the same.
    pub fn add_pseudo(&mut self, src: &IpAddr, dst: &IpAddr, proto: u8, len: u32)
        requires
            src is V4 <==> dst is V4,
        ensures
            forall|s: Seq<u8>| #[trigger]
                old(self).covers(s) ==> final(self).covers(
                    s + pseudo_header(*src, *dst, proto, len),
                ),
    {
        match (src, dst) {
            (IpAddr::V4(s), IpAddr::V4(d)) => self.add_pseudo_v4(
                s,
                d,
                proto,
                (len % 0x1_0000) as u16,
            ),
            (IpAddr::V6(s), IpAddr::V6(d)) => self.add_pseudo_v6(s, d, proto, len),
            _ => {},
        }
    }

    /// Finish: fold and complement. The result is the value to place in a
    /// checksum field. Verifying a received structure: add everything
    /// including the transmitted checksum; the data is valid iff `finish()`
    /// returns 0.
    pub fn finish(self) -> (r: u16)
        ensures
            r == 0xffff - self.value(),
            forall|s: Seq<u8>| #[trigger] self.covers(s) ==> r == internet_checksum(s),
    {
        let mut sum: u32 = self.sum;
        while sum > 0xffff
            invariant
                fold16(sum as nat) == self.value(),
            decreases sum,
        {
            proof {
                lemma_fold_carry((sum / 0x1_0000) as nat, (sum % 0x1_0000) as nat);
            }
            sum = sum % 0x1_0000 + sum / 0x1_0000;
        }
        proof {
            lemma_fold_small(sum as nat);
        }
        (0xffff - sum) as u16
    }
}

proof fn lemma_fold_small(n: nat)
    ensures
        fold16(n) <= 0xffff,
        n <= 0xffff ==> fold16(n) == n,
{
    reveal(fold16);
}

proof fn lemma_word_sum_step(s: Seq<u8>, i: int, odd: bool)
    requires
        0 <= i < s.len(),
    ensures
        word_sum(s.take(i + 1), odd) == word_sum(s.take(i), odd) + placed(s[i], i, odd),
{
    assert(s.take(i + 1).drop_last() =~= s.take(i));
}

/// One-shot checksum of a contiguous buffer.
pub fn over(data: &[u8]) -> (r: u16)
    ensures
        r == internet_checksum(data@),
{
    let mut c = Checksum::new();
    c.add_bytes(data);
    assert(Seq::<u8>::empty() + data@ =~= data@);
    c.finish()
}

/// Splitting a byte string into chunks of any length does not change its
/// checksum.
pub proof fn chunks_compose(a: Seq<u8>, b: Seq<u8>)
    ensures
        internet_checksum(a + b) == 0xffff - fold16(
            fold16(word_sum(a, false)) + word_sum(b, a.len() % 2 == 1),
        ),
{
    word_sum_of_chunks(a, b, false);
    lemma_fold_small(word_sum(a + b, false));
    lemma_fold_sum(word_sum(a, false), word_sum(b, a.len() % 2 == 1));
}

/// The Internet checksum is the ones' complement of the sum of the 16-bit words:
/// together with them it makes a multiple of 2^16 - 1. Changing one word by
/// another amount than such a multiple changes the checksum.
pub proof fn checksum_complements_the_words(s: Seq<u8>)
    ensures
        (word_sum(s, false) + internet_checksum(s)) % 65535 == 0,
        0 <= internet_checksum(s) <= 0xffff,
        word_sum(s, false) == 0 ==> internet_checksum(s) == 0xffff,
{
    reveal(fold16);
    let n = word_sum(s, false) as int;
    if n > 0 {
        let r = (n - 1) % 65535;
        let q = (n - 1) / 65535;
        assert(n - 1 == 65535 * q + r);
        assert(n + (65535 - (r + 1)) == 65535 * (q + 1));
        vstd::arithmetic::div_mod::lemma_mod_multiples_basic(q + 1, 65535);
        assert((65535 * (q + 1)) % 65535 == 0) by (nonlinear_arith)
            requires
                ((q + 1) * 65535) % 65535 == 0,
        ;
    }
}

/// The words are big-endian, and an odd last byte is the high byte of a word.
pub proof fn words_are_big_endian(s: Seq<u8>, a: u8, b: u8)
    requires
        s.len() % 2 == 0,
    ensures
        word_sum(s + seq![a, b], false) == word_sum(s, false) + 256 * a + b,
        word_sum(s + seq![a], false) == word_sum(s, false) + 256 * a,
        word_sum(Seq::empty(), false) == 0,
{
    word_sum_of_chunks(s, seq![a, b], false);
    word_sum_of_chunks(s, seq![a], false);
    lemma_word_sum_pair(a, b);
    reveal_with_fuel(word_sum, 2);
    assert(seq![a].drop_last() =~= Seq::empty());
}

/// The pseudo-header holds both addresses, the protocol and the length, in the
/// layout of each family.
pub proof fn pseudo_header_layout(src: IpAddr, dst: IpAddr, proto: u8, len: u32, i: int)
    requires
        src is V4 <==> dst is V4,
        len <= 0xffff,
    ensures
        ({
            let p = pseudo_header(src, dst, proto, len);
            let n = src.octets().len() as int;
            &&& src is V4 ==> p.len() == 12 && p[8] == 0 && p[9] == proto && p[10] * 256 + p[11]
                == len
            &&& src is V6 ==> p.len() == 38 && p[32] == 0 && p[33] == 0 && p[34] * 256 + p[35] == len
                && p[36] == 0 && p[37] == proto
            &&& 0 <= i < n ==> p[i] == src.octets()[i] && p[n + i] == dst.octets()[i]
        }),
{
}

} // verus!
