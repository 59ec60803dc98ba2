//! Wire formats: parsing and emission of protocol headers.
//!
//! Parsers take raw bytes and return typed headers plus payload slices,
//! rejecting anything malformed (every length is checked, every checksum is
//! verified before any field is acted upon). Emitters write into
//! caller-provided buffers and never allocate.
pub mod checksum;
pub mod icmp;
pub mod ipv4;
pub mod ipv6;
pub mod proto;
pub mod tcp;

use vstd::prelude::*;

verus! {

/// Errors produced by wire parsers.
///
/// All of these result in the datagram being dropped (RFC 1122 section
/// 3.2.1.1: silently discard malformed datagrams); they are surfaced for
/// diagnostics and test assertions.
#[derive(Debug, Clone, Copy, PartialEq, Eq, Structural)]
pub enum WireError {
    /// Buffer shorter than the structure it should contain.
    Truncated,
    /// IP version field does not match the parser.
    BadVersion,
    /// Header length field out of range.
    BadHeaderLen,
    /// Checksum verification failed.
    BadChecksum,
    /// Malformed TCP option.
    BadOption,
    /// IPv6 extension-header chain too long or malformed.
    BadExtensionHeader,
    /// A length field is inconsistent with the buffer.
    BadLength,
}

/// The big-endian 16-bit number at offset `at`.
pub open spec fn be16(b: Seq<u8>, at: int) -> u16 {
    (b[at] * 256 + b[at + 1]) as u16
}

/// The big-endian 32-bit number at offset `at`.
pub open spec fn be32(b: Seq<u8>, at: int) -> u32 {
    (b[at] * 0x100_0000 + b[at + 1] * 0x1_0000 + b[at + 2] * 0x100 + b[at + 3]) as u32
}

/// The high byte of a 16-bit number.
#[verifier::allow_in_spec]
pub fn hi8(v: u16) -> u8
    returns
        (v / 256) as u8,
{
    (v / 256) as u8
}

/// The low byte of a 16-bit number.
#[verifier::allow_in_spec]
pub fn lo8(v: u16) -> u8
    returns
        (v % 256) as u8,
{
    (v % 256) as u8
}

/// The big-endian bytes of a 16-bit number.
pub open spec fn bytes16(v: u16) -> Seq<u8> {
    seq![hi8(v), lo8(v)]
}

/// The big-endian bytes of a 32-bit number.
pub open spec fn bytes32(v: u32) -> Seq<u8> {
    seq![
        (v / 0x100_0000) as u8,
        (v / 0x1_0000 % 0x100) as u8,
        (v / 0x100 % 0x100) as u8,
        (v % 0x100) as u8,
    ]
}

/// `b` with the bytes of `x` written over it from offset `at` on.
pub open spec fn splice(b: Seq<u8>, at: int, x: Seq<u8>) -> Seq<u8> {
    b.take(at) + x + b.skip(at + x.len())
}

/// Writing two strings one behind the other is writing their concatenation.
pub proof fn lemma_splice_append(b: Seq<u8>, at: int, x: Seq<u8>, y: Seq<u8>)
    requires
        0 <= at,
        at + x.len() + y.len() <= b.len(),
    ensures
        splice(splice(b, at, x), at + x.len(), y) == splice(b, at, x + y),
        splice(b, at, x).len() == b.len(),
        splice(b, at, x + y).len() == b.len(),
{
    assert(splice(splice(b, at, x), at + x.len(), y) =~= splice(b, at, x + y));
}

/// Writing over a part of what was written at the front.
pub proof fn lemma_splice_inside(b: Seq<u8>, x: Seq<u8>, at: int, y: Seq<u8>)
    requires
        0 <= at,
        at + y.len() <= x.len() <= b.len(),
    ensures
        splice(splice(b, 0, x), at, y) == splice(b, 0, splice(x, at, y)),
        splice(b, 0, x).subrange(0, x.len() as int) == x,
        splice(b, 0, x).len() == b.len(),
        splice(x, at, y).len() == x.len(),
{
    assert(splice(splice(b, 0, x), at, y) =~= splice(b, 0, splice(x, at, y)));
    assert(splice(b, 0, x).subrange(0, x.len() as int) =~= x);
}

/// Writing nothing changes nothing.
pub proof fn lemma_splice_nothing(b: Seq<u8>, at: int)
    requires
        0 <= at <= b.len(),
    ensures
        splice(b, at, Seq::empty()) == b,
{
    assert(splice(b, at, Seq::empty()) =~= b);
}

/// Where the bytes of a 32-bit number stand, the number is read.
pub proof fn lemma_be32_at(s: Seq<u8>, at: int, v: u32)
    requires
        s[at] == bytes32(v)[0],
        s[at + 1] == bytes32(v)[1],
        s[at + 2] == bytes32(v)[2],
        s[at + 3] == bytes32(v)[3],
    ensures
        be32(s, at) == v,
{
}

/// Where the bytes of a 16-bit number stand, the number is read.
pub proof fn lemma_be16_at(s: Seq<u8>, at: int, v: u16)
    requires
        s[at] == hi8(v),
        s[at + 1] == lo8(v),
    ensures
        be16(s, at) == v,
{
}

/// Reading back the bytes of a 16-bit number gives the number.
pub proof fn bytes16_round_trip(v: u16)
    ensures
        be16(bytes16(v), 0) == v,
{
}

/// Reading back the bytes of a 32-bit number gives the number.
pub proof fn bytes32_round_trip(v: u32)
    ensures
        be32(bytes32(v), 0) == v,
{
}

#[inline]
pub fn read_u16(b: &[u8], at: usize) -> (r: u16)
    requires
        at + 2 <= b@.len(),
    ensures
        r == be16(b@, at as int),
{
    b[at] as u16 * 256 + b[at + 1] as u16
}

#[inline]
pub fn read_u32(b: &[u8], at: usize) -> (r: u32)
    requires
        at + 4 <= b@.len(),
    ensures
        r == be32(b@, at as int),
{
    b[at] as u32 * 0x100_0000 + b[at + 1] as u32 * 0x1_0000 + b[at + 2] as u32 * 0x100
        + b[at + 3] as u32
}

#[inline]
pub fn write_u16(b: &mut [u8], at: usize, v: u16)
    requires
        at + 2 <= old(b)@.len(),
    ensures
        final(b)@ == splice(old(b)@, at as int, bytes16(v)),
{
    b[at] = (v / 256) as u8;
    b[at + 1] = (v % 256) as u8;
    assert(b@ =~= splice(old(b)@, at as int, bytes16(v)));
}

#[inline]
pub fn write_u32(b: &mut [u8], at: usize, v: u32)
    requires
        at + 4 <= old(b)@.len(),
    ensures
        final(b)@ == splice(old(b)@, at as int, bytes32(v)),
{
    b[at] = (v / 0x100_0000) as u8;
    b[at + 1] = (v / 0x1_0000 % 0x100) as u8;
    b[at + 2] = (v / 0x100 % 0x100) as u8;
    b[at + 3] = (v % 0x100) as u8;
    assert(b@ =~= splice(old(b)@, at as int, bytes32(v)));
}

/// The bytes of `b` from offset `at` on.
#[inline]
pub fn tail(b: &[u8], at: usize) -> (r: &[u8])
    requires
        at <= b@.len(),
    ensures
        r@ == b@.skip(at as int),
{
    assert(b@.subrange(at as int, b@.len() as int) =~= b@.skip(at as int));
    &b[at..b.len()]
}

/// Write the bytes of `src` over `b` from offset `at` on.
pub fn write_bytes(b: &mut [u8], at: usize, src: &[u8])
    requires
        at + src@.len() <= old(b)@.len(),
    ensures
        final(b)@ == splice(old(b)@, at as int, src@),
{
    let n: usize = b.len();
    let mut i: usize = 0;
    while i < src.len()
        invariant
            i <= src@.len(),
            at + src@.len() <= old(b)@.len(),
            n == old(b)@.len(),
            b@ == splice(old(b)@, at as int, src@.take(i as int)),
        decreases src@.len() - i,
    {
        b[at + i] = src[i];
        i += 1;
        assert(b@ =~= splice(old(b)@, at as int, src@.take(i as int)));
    }
    assert(src@.take(i as int) =~= src@);
}

} // verus!
