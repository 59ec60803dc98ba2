//! TCP sequence-number arithmetic (RFC 9293 section 3.4).
//!
//! All comparisons are modulo 2^32 and valid only when the compared numbers
//! are within 2^31 of each other, which TCP's window rules guarantee.
//! Deliberately *not* `PartialOrd`: ordinary `<` on sequence numbers is the
//! classic wraparound bug, so comparisons must be spelled out.
use vstd::prelude::*;

verus! {

/// Size of the sequence space.
pub open spec fn space() -> int {
    0x1_0000_0000
}

/// Half the sequence space: the distance to the antipode.
pub open spec fn half_space() -> int {
    0x8000_0000
}

/// A TCP sequence number.
#[derive(Debug, Clone, Copy, PartialEq, Eq, Structural, Hash)]
pub struct SeqNr(pub u32);

impl Default for SeqNr {
    fn default() -> (r: Self)
        ensures
            r == SeqNr(0),
    {
        SeqNr(0)
    }
}

impl SeqNr {
    /// How far forward one has to step from this number to reach `other`.
    pub open spec fn distance_to(self, other: SeqNr) -> int {
        if other.0 >= self.0 {
            other.0 - self.0
        } else {
            other.0 - self.0 + space()
        }
    }

    /// `self + n` modulo 2^32.
    #[inline]
    #[must_use]
    #[verifier::allow_in_spec]
    pub fn add(self, n: u32) -> SeqNr
        returns
            SeqNr(
                if self.0 + n >= space() {
                    (self.0 + n - space()) as u32
                } else {
                    (self.0 + n) as u32
                },
            ),
    {
        SeqNr(self.0.wrapping_add(n))
    }

    /// `self - n` modulo 2^32.
    #[inline]
    #[must_use]
    #[verifier::allow_in_spec]
    pub fn sub(self, n: u32) -> SeqNr
        returns
            SeqNr(
                if self.0 < n {
                    (self.0 - n + space()) as u32
                } else {
                    (self.0 - n) as u32
                },
            ),
    {
        SeqNr(self.0.wrapping_sub(n))
    }

    /// Bytes from `earlier` to `self` modulo 2^32 (callers must know
    /// `earlier` precedes `self`).
    #[inline]
    #[verifier::allow_in_spec]
    pub fn since(self, earlier: SeqNr) -> u32
        returns
            earlier.distance_to(self) as u32,
    {
        self.0.wrapping_sub(earlier.0)
    }

    /// `self < other` in sequence space.
    #[inline]
    #[verifier::allow_in_spec]
    pub fn lt(self, other: SeqNr) -> bool
        returns
            0 < self.distance_to(other) < half_space(),
    {
        let d: u32 = other.0.wrapping_sub(self.0);
        0 < d && d < 0x8000_0000
    }

    /// `self <= other` in sequence space.
    #[inline]
    #[verifier::allow_in_spec]
    pub fn le(self, other: SeqNr) -> bool
        returns
            self.distance_to(other) <= half_space(),
    {
        !other.lt(self)
    }

    /// `self > other` in sequence space.
    #[inline]
    #[verifier::allow_in_spec]
    pub fn gt(self, other: SeqNr) -> bool
        returns
            other.lt(self),
    {
        other.lt(self)
    }

    /// `self >= other` in sequence space.
    #[inline]
    #[verifier::allow_in_spec]
    pub fn ge(self, other: SeqNr) -> bool
        returns
            other.le(self),
    {
        !self.lt(other)
    }

    /// The later of two sequence numbers.
    #[inline]
    #[must_use]
    #[verifier::allow_in_spec]
    pub fn max(self, other: SeqNr) -> SeqNr
        returns
            (if self.ge(other) {
                self
            } else {
                other
            }),
    {
        if self.ge(other) {
            self
        } else {
            other
        }
    }

    /// The earlier of two sequence numbers.
    #[inline]
    #[must_use]
    #[verifier::allow_in_spec]
    pub fn min(self, other: SeqNr) -> SeqNr
        returns
            (if self.le(other) {
                self
            } else {
                other
            }),
    {
        if self.le(other) {
            self
        } else {
            other
        }
    }

    /// RFC 9293 section 3.4 window test: `start <= self < start + len`.
    #[inline]
    #[verifier::allow_in_spec]
    pub fn in_window(self, start: SeqNr, len: u32) -> bool
        returns
            start.distance_to(self) < len,
    {
        self.since(start) < len
    }
}

/// `distance_to` is the difference modulo 2^32.
pub proof fn distance_is_modular_difference(a: SeqNr, b: SeqNr)
    ensures
        a.distance_to(b) == (b.0 - a.0) % space(),
        0 <= a.distance_to(b) < space(),
{
}

/// Adding is the modular sum, and subtracting takes it back.
pub proof fn add_sub_round_trip(a: SeqNr, n: u32)
    ensures
        a.add(n).0 == (a.0 + n) % space(),
        a.add(n).sub(n) == a,
        a.sub(n).add(n) == a,
{
}

/// `since` measures what `add` added, and adding what `since` measured leads
/// back to the number it was measured to.
pub proof fn add_since_round_trip(a: SeqNr, b: SeqNr, n: u32)
    ensures
        a.add(n).since(a) == n,
        a.add(b.since(a)) == b,
{
}

/// No number is before itself; every number is at most itself.
pub proof fn order_is_irreflexive(a: SeqNr)
    ensures
        !a.lt(a),
        !a.gt(a),
        a.le(a),
        a.ge(a),
{
}

/// Two numbers are never both before each other.
pub proof fn order_is_asymmetric(a: SeqNr, b: SeqNr)
    requires
        a.lt(b),
    ensures
        !b.lt(a),
        a.le(b),
        !b.le(a),
{
}

/// Of two different numbers that are not antipodes, one is before the other.
pub proof fn order_is_total_off_antipode(a: SeqNr, b: SeqNr)
    requires
        a.distance_to(b) != half_space(),
    ensures
        a == b || a.lt(b) || b.lt(a),
{
}

/// `le` both ways means equal, or antipodal.
pub proof fn le_is_antisymmetric_off_antipode(a: SeqNr, b: SeqNr)
    requires
        a.le(b),
        b.le(a),
    ensures
        a == b || a.distance_to(b) == half_space(),
{
}

/// The order is transitive for numbers that lie within half the space.
pub proof fn order_is_transitive_within_half_space(a: SeqNr, b: SeqNr, c: SeqNr)
    requires
        a.lt(b),
        b.lt(c),
        a.distance_to(b) + b.distance_to(c) < half_space(),
    ensures
        a.lt(c),
        a.distance_to(c) == a.distance_to(b) + b.distance_to(c),
{
}

/// Distances add up along the ring, modulo 2^32.
pub proof fn distances_add_up(a: SeqNr, b: SeqNr, c: SeqNr)
    ensures
        a.distance_to(c) == (a.distance_to(b) + b.distance_to(c)) % space(),
{
}

/// A number is in a window exactly when it is the start plus an offset below
/// the length; an empty window holds nothing.
pub proof fn window_holds_the_offsets_below_its_length(x: SeqNr, start: SeqNr, len: u32)
    ensures
        x.in_window(start, len) <==> exists|n: u32| n < len && x == #[trigger] start.add(n),
        !x.in_window(start, 0),
{
    if x.in_window(start, len) {
        assert(x == start.add(x.since(start)));
    }
}

/// An acknowledgement accepted by `una < ack <= nxt` covers a part of what is
/// outstanding that is not empty, and never more than is outstanding, as long
/// as less than half the space is outstanding.
pub proof fn acceptable_ack_covers_outstanding_data(una: SeqNr, ack: SeqNr, nxt: SeqNr)
    requires
        una.distance_to(nxt) < half_space(),
        una.lt(ack),
        ack.le(nxt),
    ensures
        0 < ack.since(una) <= nxt.since(una),
        nxt.since(ack) == nxt.since(una) - ack.since(una),
{
}

/// The sequence number `n` steps behind `start`, for any `n`.
pub open spec fn seq_at(start: SeqNr, n: int) -> SeqNr {
    SeqNr(((start.0 + n) % 0x1_0000_0000) as u32)
}

/// Steps along the ring add up, and distances between places less than half
/// the ring apart are the differences of the places.
pub proof fn lemma_seq_at(start: SeqNr, a: int, b: int)
    ensures
        0 <= b - a < 0x1_0000_0000 ==> seq_at(start, a).add((b - a) as u32) == seq_at(start, b),
        0 <= b - a < 0x1_0000_0000 ==> seq_at(start, a).distance_to(seq_at(start, b)) == b - a,
        -0x8000_0000 < b - a < 0x8000_0000 ==> (seq_at(start, a).lt(seq_at(start, b)) <==> a < b),
{
    let m: int = 0x1_0000_0000;
    let x = start.0 + a;
    let y = start.0 + b;
    vstd::arithmetic::div_mod::lemma_fundamental_div_mod(x, m);
    vstd::arithmetic::div_mod::lemma_fundamental_div_mod(y, m);
    vstd::arithmetic::div_mod::lemma_mod_bound(x, m);
    vstd::arithmetic::div_mod::lemma_mod_bound(y, m);
}

} // verus!
