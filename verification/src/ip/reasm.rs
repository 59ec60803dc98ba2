//! Fragment reassembly (RFC 791 section 3.2 / RFC 815 hole algorithm / RFC
//! 8200 section 4.5), shared by IPv4 and IPv6.
//!
//! Fixed capacity: [`REASM_SLOTS`] concurrent datagrams of at most
//! [`REASM_BUF_SIZE`] bytes with at most [`REASM_MAX_HOLES`] holes each.
//! Anything exceeding a bound drops the affected datagram; the peer's
//! transport retransmits (bounded loss, never unbounded memory).
//!
//! Security: any *conflicting* overlap drops the whole datagram (mandatory
//! for IPv6 per RFC 5722; applied to IPv4 as well). Exact duplicate fragments
//! with identical bytes are tolerated as benign network duplication.
use super::ReasmKey;
use crate::config::{REASM_BUF_SIZE, REASM_MAX_HOLES, REASM_SLOTS};
use crate::time::{Duration, Instant};
use crate::util::BoundedVec;
use crate::wire::{splice, write_bytes};
use vstd::prelude::*;

verus! {

/// Result of offering one fragment to the reassembler.
#[derive(Debug, Clone, Copy, PartialEq, Eq, Structural)]
pub enum ReasmResult {
    /// Datagram complete; fetch it with [`Reassembler::completed`] or
    /// [`Reassembler::take`].
    Complete {
        /// Slot holding the completed datagram.
        slot: usize,
    },
    /// Fragment stored; more fragments are needed.
    Pending,
    /// Fragment (and possibly the whole datagram) discarded.
    Dropped,
}

/// Model of one reassembly slot.
#[verifier::ext_equal]
pub struct SlotModel {
    /// The datagram under reassembly.
    pub key: ReasmKey,
    /// Missing byte ranges `[start, end)`; the end `u32::MAX` stands for
    /// "unbounded" until the final fragment fixes the total length.
    pub holes: Seq<(u32, u32)>,
    /// Total length, once known.
    pub total_len: Option<u32>,
    /// When the reassembly is given up.
    pub deadline: Instant,
    /// Whether a reassembly is in progress.
    pub in_use: bool,
    /// How often the slot was taken into use, modulo 256.
    pub generation: u8,
    /// The bytes; those inside holes are meaningless.
    pub buf: Seq<u8>,
}

/// Index of the first hole that holds all of `[offset, end)`, or the number of
/// holes.
pub open spec fn hole_around(holes: Seq<(u32, u32)>, offset: int, end: int) -> nat
    decreases holes.len(),
{
    if holes.len() == 0 {
        0
    } else if holes[0].0 <= offset && end <= holes[0].1 {
        0
    } else {
        1 + hole_around(holes.drop_first(), offset, end)
    }
}

/// Whether a hole overlaps `[offset, end)`.
pub open spec fn touches_hole(holes: Seq<(u32, u32)>, offset: int, end: int) -> bool {
    exists|i: int| 0 <= i < holes.len() && offset < (#[trigger] holes[i]).1 && holes[i].0 < end
}

/// What is left of a hole once `[offset, end)` inside of it is filled.
pub open spec fn hole_rest(hole: (u32, u32), offset: int, end: int) -> Seq<(u32, u32)> {
    (if hole.0 < offset {
        seq![(hole.0, offset as u32)]
    } else {
        Seq::empty()
    }) + (if end < hole.1 {
        seq![(end as u32, hole.1)]
    } else {
        Seq::empty()
    })
}

/// The holes once `[offset, end)` inside of hole `i` is filled.
pub open spec fn holes_filled(holes: Seq<(u32, u32)>, i: int, offset: int, end: int) -> Seq<
    (u32, u32),
> {
    holes.take(i) + hole_rest(holes[i], offset, end) + holes.skip(i + 1)
}

/// The holes once the total length is known to be `end`, which is not below
/// the unbounded hole, the last one.
pub open spec fn holes_bounded(holes: Seq<(u32, u32)>, end: int) -> Seq<(u32, u32)> {
    holes.drop_last() + (if holes.last().0 < end {
        seq![(holes.last().0, end as u32)]
    } else {
        Seq::empty()
    })
}

impl SlotModel {
    /// A slot that was never used.
    pub open spec fn vacant() -> SlotModel {
        SlotModel {
            key: ReasmKey::blank(),
            holes: Seq::empty(),
            total_len: None,
            deadline: Instant { micros: 0 },
            in_use: false,
            generation: 0,
            buf: Seq::new(REASM_BUF_SIZE as nat, |i: int| 0u8),
        }
    }

    /// Whether the byte at `off` is still missing.
    pub open spec fn missing(self, off: int) -> bool {
        exists|i: int|
            0 <= i < self.holes.len() && (#[trigger] self.holes[i]).0 <= off < self.holes[i].1
    }

    /// How many bytes the slot may have to hold, as far as is known.
    pub open spec fn span(self) -> int {
        match self.total_len {
            Some(t) => t as int,
            None => self.buf.len() as int,
        }
    }

    /// Holes are sorted, not empty and separated by stored bytes; exactly the
    /// last one is unbounded while the total length is unknown, and none
    /// reaches beyond it once it is known.
    pub open spec fn wf(self) -> bool {
        &&& self.buf.len() == REASM_BUF_SIZE
        &&& self.holes.len() <= REASM_MAX_HOLES
        &&& self.in_use ==> {
            &&& forall|i: int|
                0 <= i < self.holes.len() ==> (#[trigger] self.holes[i]).0 < self.holes[i].1
            &&& forall|i: int, j: int|
                0 <= i < j < self.holes.len() ==> (#[trigger] self.holes[i]).1 < (
                #[trigger] self.holes[j]).0
            &&& match self.total_len {
                None => {
                    &&& self.holes.len() > 0
                    &&& self.holes.last().1 == u32::MAX
                    &&& self.holes.last().0 <= REASM_BUF_SIZE
                },
                Some(t) => {
                    &&& t <= REASM_BUF_SIZE
                    &&& forall|i: int| 0 <= i < self.holes.len() ==> (#[trigger] self.holes[i]).1 <= t
                },
            }
        }
    }

    /// Whether every byte has arrived.
    pub open spec fn complete(self) -> bool {
        self.in_use && self.total_len is Some && self.holes.len() == 0
    }

    /// The slot given up.
    pub open spec fn freed(self) -> SlotModel {
        SlotModel { in_use: false, ..self }
    }

    /// The slot taken into use for `key`.
    pub open spec fn started(self, key: ReasmKey, deadline: Instant) -> SlotModel {
        SlotModel {
            key,
            deadline,
            in_use: true,
            total_len: None,
            holes: seq![(0u32, u32::MAX)],
            generation: self.generation.wrapping_add(1),
            ..self
        }
    }

    /// The slot after the length was fixed by a final fragment ending at
    /// `end`; none if that contradicts what is known.
    pub open spec fn bounded(self, end: int) -> Option<SlotModel> {
        match self.total_len {
            Some(t) => if t == end {
                Some(self)
            } else {
                None
            },
            None => if self.holes.last().0 > end {
                None
            } else {
                Some(
                    SlotModel {
                        total_len: Some(end as u32),
                        holes: holes_bounded(self.holes, end),
                        ..self
                    },
                )
            },
        }
    }

    /// The slot after bytes were offered at `offset`; none if the datagram
    /// must be dropped. Bytes are new (all of them inside one hole) or an
    /// exact duplicate (none of them in a hole); anything else conflicts with
    /// what is stored. A hole that cannot be recorded drops the datagram too.
    pub open spec fn filled(self, offset: int, data: Seq<u8>) -> Option<SlotModel> {
        let end = offset + data.len();
        let i = hole_around(self.holes, offset, end) as int;
        if i < self.holes.len() {
            let holes = holes_filled(self.holes, i, offset, end);
            if holes.len() > REASM_MAX_HOLES {
                None
            } else {
                Some(SlotModel { holes, buf: splice(self.buf, offset, data), ..self })
            }
        } else if touches_hole(self.holes, offset, end) {
            None
        } else if self.buf.subrange(offset, end) == data {
            Some(self)
        } else {
            None
        }
    }

    /// Whether the bytes offered are an exact duplicate of stored ones.
    pub open spec fn duplicate(self, offset: int, data: Seq<u8>) -> bool {
        data.len() > 0 && !touches_hole(self.holes, offset, offset + data.len())
    }

    /// The slot after a fragment that fits the buffer, and whether it was
    /// kept: `None` drops the datagram, `Some(done)` tells whether it is
    /// reported complete.
    pub open spec fn offered(self, offset: int, more: bool, data: Seq<u8>) -> (
        SlotModel,
        Option<bool>,
    ) {
        let end = offset + data.len();
        let fixed = if more {
            Some(self)
        } else {
            self.bounded(end)
        };
        match fixed {
            None => (self.freed(), None),
            Some(s) => if s.total_len matches Some(t) && end > t {
                (s.freed(), None)
            } else if data.len() == 0 {
                (s, Some(s.complete()))
            } else {
                match s.filled(offset, data) {
                    None => (s.freed(), None),
                    Some(f) => (f, Some(!s.duplicate(offset, data) && f.complete())),
                }
            },
        }
    }
}

/// Index of the slot that reassembles `key`, or the number of slots.
pub open spec fn slot_of(slots: Seq<SlotModel>, key: ReasmKey) -> nat
    decreases slots.len(),
{
    if slots.len() == 0 {
        0
    } else if slots[0].in_use && slots[0].key == key {
        0
    } else {
        1 + slot_of(slots.drop_first(), key)
    }
}

/// Index of the first slot that is free or expired, or the number of slots.
pub open spec fn slot_free(slots: Seq<SlotModel>, now: Instant) -> nat
    decreases slots.len(),
{
    if slots.len() == 0 {
        0
    } else if !slots[0].in_use || slots[0].deadline.micros <= now.micros {
        0
    } else {
        1 + slot_free(slots.drop_first(), now)
    }
}

/// The slots with every reassembly of `key` given up.
pub open spec fn key_dropped(slots: Seq<SlotModel>, key: ReasmKey) -> Seq<SlotModel> {
    slots.map_values(
        |s: SlotModel|
            if s.in_use && s.key == key {
                s.freed()
            } else {
                s
            },
    )
}

/// The slots after fragment `data` of datagram `key` arrived, and what is
/// reported.
///
/// A non-final fragment must carry a positive multiple of 8 bytes. A datagram
/// that cannot fit the buffer is dropped whole. A fragment of a datagram that
/// has no slot takes the first free or expired one; if there is none it is
/// dropped.
pub open spec fn pushed(
    slots: Seq<SlotModel>,
    now: Instant,
    timeout: Duration,
    key: ReasmKey,
    offset: u32,
    more: bool,
    data: Seq<u8>,
) -> (Seq<SlotModel>, ReasmResult) {
    if more && (data.len() % 8 != 0 || data.len() == 0) {
        (slots, ReasmResult::Dropped)
    } else if offset + data.len() > REASM_BUF_SIZE {
        (key_dropped(slots, key), ReasmResult::Dropped)
    } else {
        let known = slot_of(slots, key) as int;
        let i = if known < slots.len() {
            known
        } else {
            slot_free(slots, now) as int
        };
        if i >= slots.len() {
            (slots, ReasmResult::Dropped)
        } else {
            let slot = if known < slots.len() {
                slots[i]
            } else {
                slots[i].started(key, now + timeout)
            };
            let (after, kept) = slot.offered(offset as int, more, data);
            (
                slots.update(i, after),
                match kept {
                    None => ReasmResult::Dropped,
                    Some(true) => ReasmResult::Complete { slot: i as usize },
                    Some(false) => ReasmResult::Pending,
                },
            )
        }
    }
}

/// Every slot is well-formed.
pub open spec fn slots_wf(slots: Seq<SlotModel>) -> bool {
    &&& slots.len() == REASM_SLOTS
    &&& forall|i: int| 0 <= i < slots.len() ==> (#[trigger] slots[i]).wf()
}

proof fn lemma_hole_around_is(holes: Seq<(u32, u32)>, offset: int, end: int, k: int)
    requires
        0 <= k <= holes.len(),
        forall|i: int| 0 <= i < k ==> !((#[trigger] holes[i]).0 <= offset && end <= holes[i].1),
        k < holes.len() ==> holes[k].0 <= offset && end <= holes[k].1,
    ensures
        hole_around(holes, offset, end) == k,
    decreases holes.len(),
{
    if k > 0 {
        assert(forall|i: int| 0 <= i < k - 1 ==> holes.drop_first()[i] == holes[i + 1]);
        lemma_hole_around_is(holes.drop_first(), offset, end, k - 1);
    }
}

pub(crate) proof fn lemma_hole_around_props(holes: Seq<(u32, u32)>, offset: int, end: int)
    ensures
        hole_around(holes, offset, end) <= holes.len(),
        hole_around(holes, offset, end) < holes.len() ==> {
            let h = holes[hole_around(holes, offset, end) as int];
            h.0 <= offset && end <= h.1
        },
        forall|i: int|
            0 <= i < hole_around(holes, offset, end) ==> !((#[trigger] holes[i]).0 <= offset && end
                <= holes[i].1),
    decreases holes.len(),
{
    if holes.len() > 0 && !(holes[0].0 <= offset && end <= holes[0].1) {
        let t = holes.drop_first();
        lemma_hole_around_props(t, offset, end);
        assert forall|i: int| 0 <= i < hole_around(holes, offset, end) implies !((
        #[trigger] holes[i]).0 <= offset && end <= holes[i].1) by {
            if i > 0 {
                assert(t[i - 1] == holes[i]);
            }
        }
    }
}

proof fn lemma_slot_of_props(slots: Seq<SlotModel>, key: ReasmKey)
    ensures
        slot_of(slots, key) <= slots.len(),
        slot_of(slots, key) < slots.len() ==> {
            let s = slots[slot_of(slots, key) as int];
            s.in_use && s.key == key
        },
        forall|i: int|
            0 <= i < slot_of(slots, key) ==> !((#[trigger] slots[i]).in_use && slots[i].key == key),
    decreases slots.len(),
{
    if slots.len() > 0 && !(slots[0].in_use && slots[0].key == key) {
        let t = slots.drop_first();
        lemma_slot_of_props(t, key);
        assert forall|i: int| 0 <= i < slot_of(slots, key) implies !((
        #[trigger] slots[i]).in_use && slots[i].key == key) by {
            if i > 0 {
                assert(t[i - 1] == slots[i]);
            }
        }
    }
}

pub(crate) proof fn lemma_slot_of_is(slots: Seq<SlotModel>, key: ReasmKey, k: int)
    requires
        0 <= k <= slots.len(),
        forall|i: int| 0 <= i < k ==> !((#[trigger] slots[i]).in_use && slots[i].key == key),
        k < slots.len() ==> slots[k].in_use && slots[k].key == key,
    ensures
        slot_of(slots, key) == k,
    decreases slots.len(),
{
    if k > 0 {
        assert(forall|i: int| 0 <= i < k - 1 ==> slots.drop_first()[i] == slots[i + 1]);
        lemma_slot_of_is(slots.drop_first(), key, k - 1);
    }
}

proof fn lemma_slot_free_is(slots: Seq<SlotModel>, now: Instant, k: int)
    requires
        0 <= k <= slots.len(),
        forall|i: int|
            0 <= i < k ==> (#[trigger] slots[i]).in_use && slots[i].deadline.micros > now.micros,
        k < slots.len() ==> !slots[k].in_use || slots[k].deadline.micros <= now.micros,
    ensures
        slot_free(slots, now) == k,
    decreases slots.len(),
{
    if k > 0 {
        assert(forall|i: int| 0 <= i < k - 1 ==> slots.drop_first()[i] == slots[i + 1]);
        lemma_slot_free_is(slots.drop_first(), now, k - 1);
    }
}

pub(crate) proof fn lemma_slot_free_bound(slots: Seq<SlotModel>, now: Instant)
    ensures
        slot_free(slots, now) <= slots.len(),
    decreases slots.len(),
{
    if slots.len() > 0 {
        lemma_slot_free_bound(slots.drop_first(), now);
    }
}

pub(crate) proof fn lemma_bounded_wf(s: SlotModel, end: int)
    requires
        s.wf(),
        s.in_use,
        0 <= end <= REASM_BUF_SIZE,
    ensures
        s.bounded(end) matches Some(b) ==> b.wf() && b.in_use,
{
    if s.bounded(end) is Some && s.total_len is None {
        let b = s.bounded(end)->0;
        assert forall|i: int| 0 <= i < b.holes.len() implies (#[trigger] b.holes[i]).0 < b.holes[i].1
            && b.holes[i].1 <= end by {
            if i < s.holes.len() - 1 {
                assert(b.holes[i] == s.holes[i]);
                assert(s.holes[i].1 < s.holes[s.holes.len() - 1].0);
            }
        }
        assert forall|i: int, j: int| 0 <= i < j < b.holes.len() implies (#[trigger] b.holes[i]).1
            < (#[trigger] b.holes[j]).0 by {
            assert(b.holes[i] == s.holes[i]);
            assert(b.holes[j].0 == s.holes[j].0);
        }
    }
}

proof fn lemma_filled_wf(s: SlotModel, offset: int, data: Seq<u8>)
    requires
        s.wf(),
        s.in_use,
        0 <= offset,
        data.len() > 0,
        offset + data.len() <= REASM_BUF_SIZE,
        s.total_len matches Some(t) ==> offset + data.len() <= t,
    ensures
        s.filled(offset, data) matches Some(f) ==> f.wf() && f.in_use,
{
    let end = offset + data.len();
    lemma_hole_around_props(s.holes, offset, end);
    let i = hole_around(s.holes, offset, end) as int;
    if s.filled(offset, data) is Some && i < s.holes.len() {
        let f = s.filled(offset, data)->0;
        let r = hole_rest(s.holes[i], offset, end);
        let n = r.len() as int;
        let h = f.holes;
        assert(forall|k: int| 0 <= k < i ==> h[k] == s.holes[k]);
        assert(forall|k: int| i <= k < i + n ==> h[k] == r[k - i]);
        assert(forall|k: int| i + n <= k < h.len() ==> h[k] == s.holes[k - n + 1]);
        assert forall|k: int| 0 <= k < h.len() implies (#[trigger] h[k]).0 < h[k].1 by {
            if k < i {
                assert(h[k] == s.holes[k]);
            } else if k >= i + n {
                assert(h[k] == s.holes[k - n + 1]);
            }
        }
        assert forall|k: int, j: int| 0 <= k < j < h.len() implies (#[trigger] h[k]).1 < (
        #[trigger] h[j]).0 by {
            let a = if k < i { k } else if k < i + n { i } else { k - n + 1 };
            let b = if j < i { j } else if j < i + n { i } else { j - n + 1 };
            if a < b {
                assert(s.holes[a].1 < s.holes[b].0);
            }
        }
        if s.total_len is None {
            assert(h.last() == if i == s.holes.len() - 1 {
                r.last()
            } else {
                s.holes.last()
            });
            if i < s.holes.len() - 1 {
                assert(s.holes[i].1 < s.holes[s.holes.len() - 1].0);
            }
        } else {
            let t = s.total_len->0;
            assert forall|k: int| 0 <= k < h.len() implies (#[trigger] h[k]).1 <= t by {
                if k < i {
                    assert(h[k] == s.holes[k]);
                } else if k >= i + n {
                    assert(h[k] == s.holes[k - n + 1]);
                }
            }
        }
    }
}

pub(crate) proof fn lemma_offered_wf(s: SlotModel, offset: int, more: bool, data: Seq<u8>)
    requires
        s.wf(),
        s.in_use,
        0 <= offset,
        offset + data.len() <= REASM_BUF_SIZE,
    ensures
        s.offered(offset, more, data).0.wf(),
{
    let end = offset + data.len();
    if !more {
        lemma_bounded_wf(s, end);
    }
    let fixed = if more {
        Some(s)
    } else {
        s.bounded(end)
    };
    if fixed is Some {
        let b = fixed->0;
        if !(b.total_len matches Some(t) && end > t) && data.len() > 0 {
            lemma_filled_wf(b, offset, data);
        }
    }
}

/// Every fragment leaves the slots well-formed.
pub proof fn push_keeps_invariant(
    slots: Seq<SlotModel>,
    now: Instant,
    timeout: Duration,
    key: ReasmKey,
    offset: u32,
    more: bool,
    data: Seq<u8>,
)
    requires
        slots_wf(slots),
    ensures
        slots_wf(pushed(slots, now, timeout, key, offset, more, data).0),
{
    lemma_slot_of_props(slots, key);
    lemma_slot_free_bound(slots, now);
    if !(more && (data.len() % 8 != 0 || data.len() == 0)) && offset + data.len()
        <= REASM_BUF_SIZE {
        let known = slot_of(slots, key) as int;
        let i = if known < slots.len() {
            known
        } else {
            slot_free(slots, now) as int
        };
        if i < slots.len() {
            let slot = if known < slots.len() {
                slots[i]
            } else {
                slots[i].started(key, now + timeout)
            };
            assert(slots[i].wf());
            lemma_offered_wf(slot, offset as int, more, data);
        }
    }
}

/// The bytes a slot holds are those of datagram `d`, as far as they arrived,
/// and its length is that of `d` once known.
pub open spec fn slot_agrees(s: SlotModel, d: Seq<u8>) -> bool {
    &&& forall|o: int| 0 <= o < s.span() && !s.missing(o) ==> o < d.len() && s.buf[o] == d[o]
    &&& s.total_len matches Some(t) ==> t == d.len()
}

/// Whether a fragment is a part of datagram `d`: its bytes are those of `d` at
/// its offset, and it is the final one exactly if it reaches the end.
pub open spec fn fragment_of(d: Seq<u8>, offset: int, more: bool, data: Seq<u8>) -> bool {
    &&& 0 <= offset
    &&& offset + data.len() <= d.len()
    &&& data == d.subrange(offset, offset + data.len())
    &&& !more ==> offset + data.len() == d.len()
}

proof fn lemma_filled_agrees(s: SlotModel, offset: int, data: Seq<u8>, d: Seq<u8>)
    requires
        s.wf(),
        s.in_use,
        slot_agrees(s, d),
        fragment_of(d, offset, true, data),
        data.len() > 0,
        offset + data.len() <= REASM_BUF_SIZE,
    ensures
        s.filled(offset, data) matches Some(f) ==> slot_agrees(f, d),
{
    let end = offset + data.len();
    lemma_hole_around_props(s.holes, offset, end);
    let i = hole_around(s.holes, offset, end) as int;
    if s.filled(offset, data) is Some && i < s.holes.len() {
        let f = s.filled(offset, data)->0;
        let r = hole_rest(s.holes[i], offset, end);
        let n = r.len() as int;
        let h = f.holes;
        assert(forall|k: int| 0 <= k < i ==> h[k] == s.holes[k]);
        assert(forall|k: int| i <= k < i + n ==> h[k] == r[k - i]);
        assert(forall|k: int| i + n <= k < h.len() ==> h[k] == s.holes[k - n + 1]);
        assert forall|o: int| 0 <= o < f.span() && !f.missing(o) implies o < d.len() && f.buf[o]
            == d[o] by {
            if offset <= o < end {
                assert(f.buf[o] == data[o - offset]);
            } else {
                assert(f.buf[o] == s.buf[o]);
                if s.missing(o) {
                    let k = choose|k: int|
                        0 <= k < s.holes.len() && (#[trigger] s.holes[k]).0 <= o < s.holes[k].1;
                    if k < i {
                        assert(h[k] == s.holes[k]);
                    } else if k > i {
                        assert(h[k + n - 1] == s.holes[k]);
                    } else if o < offset {
                        assert(r[0] == (s.holes[i].0, offset as u32));
                        assert(h[i] == r[0]);
                    } else {
                        assert(r[n - 1] == (end as u32, s.holes[i].1));
                        assert(h[i + n - 1] == r[n - 1]);
                    }
                    assert(f.missing(o));
                }
            }
        }
    }
}

/// As long as only fragments of one datagram arrive under its key, a slot
/// holds nothing else, in whatever order and however often they come.
pub proof fn fragments_of_one_datagram_agree(
    s: SlotModel,
    offset: int,
    more: bool,
    data: Seq<u8>,
    d: Seq<u8>,
)
    requires
        s.wf(),
        s.in_use,
        slot_agrees(s, d),
        fragment_of(d, offset, more, data),
        d.len() <= REASM_BUF_SIZE,
    ensures
        s.offered(offset, more, data).1 is Some ==> slot_agrees(
            s.offered(offset, more, data).0,
            d,
        ),
{
    let end = offset + data.len();
    if !more {
        lemma_bounded_wf(s, end);
    }
    let fixed = if more {
        Some(s)
    } else {
        s.bounded(end)
    };
    if fixed is Some {
        let b = fixed->0;
        assert(slot_agrees(b, d)) by {
            if !more && s.total_len is None {
                assert forall|o: int| 0 <= o < b.span() && !b.missing(o) implies o < d.len()
                    && b.buf[o] == d[o] by {
                    if s.missing(o) {
                        let k = choose|k: int|
                            0 <= k < s.holes.len() && (#[trigger] s.holes[k]).0 <= o
                                < s.holes[k].1;
                        if k < s.holes.len() - 1 {
                            assert(b.holes[k] == s.holes[k]);
                            assert(b.missing(o));
                        } else {
                            assert(b.holes[b.holes.len() - 1] == (s.holes.last().0, end as u32));
                            assert(b.missing(o));
                        }
                    }
                }
            }
        }
        if !(b.total_len matches Some(t) && end > t) && data.len() > 0 {
            lemma_filled_agrees(b, offset, data, d);
        }
    }
}

/// A slot newly taken into use holds nothing, so it agrees with any datagram.
pub proof fn fresh_slot_agrees(s: SlotModel, key: ReasmKey, deadline: Instant, d: Seq<u8>)
    requires
        s.wf(),
    ensures
        slot_agrees(s.started(key, deadline), d),
{
    let n = s.started(key, deadline);
    assert forall|o: int| 0 <= o < n.span() implies n.missing(o) by {
        assert(n.holes[0] == (0u32, u32::MAX));
    }
}

/// A complete slot that holds only bytes of one datagram holds exactly that
/// datagram.
pub proof fn complete_slot_is_the_datagram(s: SlotModel, d: Seq<u8>)
    requires
        s.wf(),
        s.complete(),
        slot_agrees(s, d),
    ensures
        s.buf.take(s.total_len->0 as int) == d,
{
    assert forall|o: int| 0 <= o < s.span() implies s.buf[o] == d[o] by {
        assert(!s.missing(o));
    }
    assert(s.buf.take(s.total_len->0 as int) =~= d);
}

/// Bytes that overlap stored ones and differ from them, or overlap them only
/// in part, drop the datagram.
pub proof fn conflicting_overlap_drops(s: SlotModel, offset: int, data: Seq<u8>, o: int)
    requires
        s.wf(),
        s.in_use,
        0 <= offset <= o < offset + data.len() <= REASM_BUF_SIZE,
        s.total_len matches Some(t) ==> offset + data.len() <= t,
        !s.missing(o),
        s.buf[o] != data[o - offset] || exists|p: int|
            offset <= p < offset + data.len() && #[trigger] s.missing(p),
    ensures
        s.offered(offset, true, data).1 is None,
        !s.offered(offset, true, data).0.in_use,
{
    let end = offset + data.len();
    lemma_hole_around_props(s.holes, offset, end);
    let i = hole_around(s.holes, offset, end) as int;
    if i < s.holes.len() {
        assert(s.holes[i].0 <= o < s.holes[i].1);
        assert(s.missing(o));
    }
    if exists|p: int| offset <= p < end && #[trigger] s.missing(p) {
        let p = choose|p: int| offset <= p < end && #[trigger] s.missing(p);
        let k = choose|k: int|
            0 <= k < s.holes.len() && (#[trigger] s.holes[k]).0 <= p < s.holes[k].1;
        assert(offset < s.holes[k].1 && s.holes[k].0 < end);
    } else if s.buf.subrange(offset, end) == data {
        assert(s.buf.subrange(offset, end)[o - offset] == s.buf[o]);
    }
}

/// Offering an exact duplicate of stored bytes changes nothing.
pub proof fn exact_duplicate_is_tolerated(s: SlotModel, offset: int, data: Seq<u8>)
    requires
        s.wf(),
        s.in_use,
        0 <= offset,
        data.len() > 0,
        offset + data.len() <= REASM_BUF_SIZE,
        s.total_len matches Some(t) ==> offset + data.len() <= t,
        forall|p: int|
            offset <= p < offset + data.len() ==> !(#[trigger] s.missing(p)) && s.buf[p]
                == data[p - offset],
    ensures
        s.offered(offset, true, data) == (s, Some(false)),
{
    let end = offset + data.len();
    lemma_hole_around_props(s.holes, offset, end);
    let i = hole_around(s.holes, offset, end) as int;
    if i < s.holes.len() {
        assert(s.missing(offset));
    }
    if touches_hole(s.holes, offset, end) {
        let k = choose|k: int|
            0 <= k < s.holes.len() && offset < (#[trigger] s.holes[k]).1 && s.holes[k].0 < end;
        let p = if s.holes[k].0 >= offset {
            s.holes[k].0 as int
        } else {
            offset
        };
        assert(s.holes[k].0 <= p < s.holes[k].1);
        assert(s.missing(p));
    }
    assert forall|p: int| offset <= p < end implies s.buf[p] == data[p - offset] by {
        assert(!s.missing(p));
    }
    assert(s.buf.subrange(offset, end) =~= data);
}

#[derive(Clone, Copy)]
struct Slot {
    key: ReasmKey,
    holes: BoundedVec<(u32, u32), REASM_MAX_HOLES>,
    total_len: Option<u32>,
    deadline: Instant,
    in_use: bool,
    generation: u8,
    buf: [u8; REASM_BUF_SIZE],
}

impl View for Slot {
    type V = SlotModel;

    closed spec fn view(&self) -> SlotModel {
        SlotModel {
            key: self.key,
            holes: self.holes@,
            total_len: self.total_len,
            deadline: self.deadline,
            in_use: self.in_use,
            generation: self.generation,
            buf: self.buf@,
        }
    }
}

impl Slot {
    spec fn wf(&self) -> bool {
        self.holes.wf() && self@.wf()
    }

    fn empty() -> (r: Self)
        ensures
            r.wf(),
            r@ == SlotModel::vacant(),
    {
        let r = Slot {
            key: ReasmKey::default(),
            holes: BoundedVec::new(),
            total_len: None,
            deadline: Instant::zero(),
            in_use: false,
            generation: 0,
            buf: [0u8; REASM_BUF_SIZE],
        };
        assert(r@ =~= SlotModel::vacant());
        r
    }

    fn start(&mut self, key: ReasmKey, deadline: Instant)
        requires
            old(self).wf(),
        ensures
            final(self).wf(),
            final(self)@ == old(self)@.started(key, deadline),
    {
        self.key = key;
        self.deadline = deadline;
        self.in_use = true;
        self.total_len = None;
        self.holes.clear();
        let _ = self.holes.push((0, u32::MAX));
        self.generation = self.generation.wrapping_add(1);
        assert(self@.holes =~= seq![(0u32, u32::MAX)]);
        assert(self@ =~= old(self)@.started(key, deadline));
    }

    fn is_complete(&self) -> (r: bool)
        requires
            self.wf(),
        ensures
            r == self@.complete(),
    {
        self.in_use && self.total_len.is_some() && self.holes.is_empty()
    }

    /// Fix the total length; false if that contradicts what is known.
    fn bound(&mut self, end: u32) -> (r: bool)
        requires
            old(self).wf(),
            old(self)@.in_use,
            end <= REASM_BUF_SIZE,
        ensures
            final(self).wf(),
            match old(self)@.bounded(end as int) {
                Some(b) => r && final(self)@ == b,
                None => !r && *final(self) == *old(self),
            },
    {
        proof {
            lemma_bounded_wf(self@, end as int);
        }
        if let Some(t) = self.total_len {
            return t == end;
        }
        let n: usize = self.holes.len();
        let (start, stop) = self.holes.get(n - 1);
        if start > end {
            return false;
        }
        self.total_len = Some(end);
        if start < end {
            self.holes.set(n - 1, (start, end));
        } else {
            let _ = self.holes.remove(n - 1);
        }
        assert(self@.holes =~= holes_bounded(old(self)@.holes, end as int));
        assert(self@ =~= old(self)@.bounded(end as int)->0);
        true
    }

    /// Whether the stored bytes at `offset` are those of `data`.
    fn stored_equals(&self, offset: usize, data: &[u8]) -> (r: bool)
        requires
            offset + data@.len() <= REASM_BUF_SIZE,
        ensures
            r == (self@.buf.subrange(offset as int, offset + data@.len()) == data@),
    {
        let mut i: usize = 0;
        while i < data.len()
            invariant
                i <= data@.len(),
                offset + data@.len() <= REASM_BUF_SIZE,
                forall|j: int| 0 <= j < i ==> self.buf@[offset + j] == data@[j],
            decreases data@.len() - i,
        {
            if self.buf[offset + i] != data[i] {
                assert(self@.buf.subrange(offset as int, offset + data@.len())[i as int]
                    != data@[i as int]);
                return false;
            }
            i += 1;
        }
        assert(self@.buf.subrange(offset as int, offset + data@.len()) =~= data@);
        true
    }

    /// Store bytes that lie inside hole `i`; false if the holes left cannot be
    /// recorded.
    fn store(&mut self, i: usize, offset: usize, data: &[u8]) -> (r: bool)
        requires
            old(self).wf(),
            i < old(self)@.holes.len(),
            old(self)@.holes[i as int].0 <= offset,
            offset + data@.len() <= old(self)@.holes[i as int].1,
            offset + data@.len() <= REASM_BUF_SIZE,
        ensures
            final(self).holes.wf(),
            ({
                let holes = holes_filled(
                    old(self)@.holes,
                    i as int,
                    offset as int,
                    offset + data@.len(),
                );
                if holes.len() > REASM_MAX_HOLES {
                    !r && *final(self) == *old(self)
                } else {
                    &&& r
                    &&& final(self)@ == (SlotModel {
                        holes,
                        buf: splice(old(self)@.buf, offset as int, data@),
                        ..old(self)@
                    })
                }
            }),
    {
        let ghost before = self@.holes;
        let ghost goal = holes_filled(before, i as int, offset as int, offset + data@.len());
        let end: usize = offset + data.len();
        let (hs, he) = self.holes.get(i);
        let left = (hs as usize) < offset;
        let right = end < he as usize;
        if left && right {
            if self.holes.is_full() {
                return false;
            }
            self.holes.set(i, (hs, offset as u32));
            let _ = self.holes.insert(i + 1, (end as u32, he));
        } else if left {
            self.holes.set(i, (hs, offset as u32));
        } else if right {
            self.holes.set(i, (end as u32, he));
        } else {
            let _ = self.holes.remove(i);
        }
        assert(self.holes@ =~= goal);
        write_bytes(&mut self.buf, offset, data);
        assert(self@ =~= (SlotModel {
            holes: goal,
            buf: splice(old(self)@.buf, offset as int, data@),
            ..old(self)@
        }));
        true
    }

    /// Fill in bytes by the RFC 815 hole algorithm with a strict overlap
    /// policy; `None` if the datagram must be dropped, else whether the bytes
    /// were new.
    fn fill(&mut self, offset: usize, data: &[u8]) -> (r: Option<bool>)
        requires
            old(self).wf(),
            old(self)@.in_use,
            data@.len() > 0,
            offset + data@.len() <= REASM_BUF_SIZE,
            old(self)@.total_len matches Some(t) ==> offset + data@.len() <= t,
        ensures
            final(self).wf(),
            match old(self)@.filled(offset as int, data@) {
                Some(f) => r == Some(!old(self)@.duplicate(offset as int, data@)) && final(self)@
                    == f,
                None => r is None && *final(self) == *old(self),
            },
    {
        let ghost m = self@;
        proof {
            lemma_filled_wf(m, offset as int, data@);
        }
        let end: usize = offset + data.len();
        let n: usize = self.holes.len();
        let mut touched = false;
        let mut i: usize = 0;
        while i < n
            invariant
                i <= n == m.holes.len(),
                m == self@,
                *self == *old(self),
                self.wf(),
                m.in_use,
                data@.len() > 0,
                end == offset + data@.len(),
                end <= REASM_BUF_SIZE,
                m.filled(offset as int, data@) matches Some(f) ==> f.wf(),
                forall|j: int|
                    0 <= j < i ==> !((#[trigger] m.holes[j]).0 <= offset && end <= m.holes[j].1),
                touched <==> exists|j: int|
                    0 <= j < i && offset < (#[trigger] m.holes[j]).1 && m.holes[j].0 < end,
            decreases n - i,
        {
            let (hs, he) = self.holes.get(i);
            assert(m.holes[i as int] == (hs, he));
            if hs as usize <= offset && end <= he as usize {
                proof {
                    lemma_hole_around_is(m.holes, offset as int, end as int, i as int);
                    assert(touches_hole(m.holes, offset as int, end as int));
                }
                if self.store(i, offset, data) {
                    return Some(true);
                }
                return None;
            }
            if offset < he as usize && (hs as usize) < end {
                touched = true;
            }
            i += 1;
        }
        proof {
            lemma_hole_around_is(m.holes, offset as int, end as int, n as int);
            assert(touched == touches_hole(m.holes, offset as int, end as int));
        }
        if touched {
            return None;
        }
        if self.stored_equals(offset, data) {
            return Some(false);
        }
        None
    }

    /// Offer a fragment that fits the buffer; `None` if the datagram was
    /// dropped, else whether it is now complete.
    fn offer(&mut self, offset: usize, more: bool, data: &[u8]) -> (r: Option<bool>)
        requires
            old(self).wf(),
            old(self)@.in_use,
            offset + data@.len() <= REASM_BUF_SIZE,
        ensures
            final(self).wf(),
            (final(self)@, r) == old(self)@.offered(offset as int, more, data@),
    {
        let end: usize = offset + data.len();
        if !more {
            if !self.bound(end as u32) {
                self.in_use = false;
                return None;
            }
        }
        if let Some(t) = self.total_len {
            if end > t as usize {
                self.in_use = false;
                return None;
            }
        }
        if data.len() == 0 {
            return Some(self.is_complete());
        }
        match self.fill(offset, data) {
            None => {
                self.in_use = false;
                None
            },
            Some(new) => Some(new && self.is_complete()),
        }
    }
}

/// Fixed-capacity fragment reassembler.
#[derive(Clone, Copy)]
pub struct Reassembler {
    slots: [Slot; REASM_SLOTS],
}

impl View for Reassembler {
    type V = Seq<SlotModel>;

    closed spec fn view(&self) -> Seq<SlotModel> {
        self.slots@.map_values(|s: Slot| s@)
    }
}

impl Default for Reassembler {
    fn default() -> (r: Self)
        ensures
            r.wf(),
            r@ == Seq::new(REASM_SLOTS as nat, |i: int| SlotModel::vacant()),
    {
        Self::new()
    }
}

impl Reassembler {
    /// Well-formedness of every slot.
    pub closed spec fn wf(&self) -> bool {
        &&& slots_wf(self@)
        &&& forall|i: int| 0 <= i < REASM_SLOTS ==> (#[trigger] self.slots@[i]).wf()
    }

    /// What well-formedness says of the model.
    pub broadcast proof fn lemma_model_wf(&self)
        requires
            #[trigger] self.wf(),
        ensures
            slots_wf(self@),
    {
    }

    /// An empty reassembler.
    pub fn new() -> (r: Self)
        ensures
            r.wf(),
            r@ == Seq::new(REASM_SLOTS as nat, |i: int| SlotModel::vacant()),
    {
        let slot = Slot::empty();
        let r = Reassembler { slots: [slot; REASM_SLOTS] };
        assert(r@ =~= Seq::new(REASM_SLOTS as nat, |i: int| SlotModel::vacant()));
        r
    }

    /// Offer a fragment. `offset` is in bytes; `more` is the MF flag.
    /// `timeout` applies from the first fragment of a datagram (RFC 791
    /// section 3.2: the timer runs from the first fragment seen).
    pub fn push(
        &mut self,
        now: Instant,
        timeout: Duration,
        key: ReasmKey,
        offset: u32,
        more: bool,
        data: &[u8],
    ) -> (r: ReasmResult)
        requires
            old(self).wf(),
        ensures
            final(self).wf(),
            (final(self)@, r) == pushed(old(self)@, now, timeout, key, offset, more, data@),
    {
        let ghost m = self@;
        proof {
            push_keeps_invariant(m, now, timeout, key, offset, more, data@);
        }
        // Non-final fragments must carry a multiple of 8 bytes (RFC 791 /
        // RFC 8200 section 4.5); anything else is malformed.
        if more && (data.len() % 8 != 0 || data.len() == 0) {
            return ReasmResult::Dropped;
        }
        if data.len() > REASM_BUF_SIZE || offset as usize > REASM_BUF_SIZE - data.len() {
            // Datagram cannot fit: drop the whole reassembly, not just the
            // fragment, so no state is held that can never complete.
            self.drop_key(&key);
            return ReasmResult::Dropped;
        }
        let i: usize = match self.find_or_alloc(now, timeout, &key) {
            Some(i) => i,
            None => {
                return ReasmResult::Dropped;
            },
        };
        let ghost found = self.slots@;
        let ghost mid = self@;
        assert(mid[i as int] == found[i as int]@);
        let kept = self.slots[i].offer(offset as usize, more, data);
        proof {
            assert(self.slots@ == found.update(i as int, self.slots@[i as int]));
            lemma_slot_of_props(m, key);
            let known = slot_of(m, key) as int;
            let slot = if known < m.len() {
                m[i as int]
            } else {
                m[i as int].started(key, now + timeout)
            };
            assert(mid[i as int] == slot);
            assert(self@ =~= mid.update(i as int, self.slots@[i as int]@));
            assert(self@ =~= pushed(m, now, timeout, key, offset, more, data@).0);
        }
        match kept {
            None => ReasmResult::Dropped,
            Some(true) => ReasmResult::Complete { slot: i },
            Some(false) => ReasmResult::Pending,
        }
    }

    /// Copy a completed datagram out and free its slot. Returns the key and
    /// payload length. `out` must be able to hold it.
    pub fn take(&mut self, slot: usize, out: &mut [u8]) -> (r: Option<(ReasmKey, usize)>)
        requires
            old(self).wf(),
            slot < REASM_SLOTS,
            old(self)@[slot as int].complete() ==> old(self)@[slot as int].total_len->0 <= old(
                out,
            )@.len(),
        ensures
            final(self).wf(),
            ({
                let s = old(self)@[slot as int];
                if s.complete() {
                    let len = s.total_len->0;
                    &&& r == Some((s.key, len as usize))
                    &&& final(out)@ == splice(old(out)@, 0, s.buf.take(len as int))
                    &&& final(self)@ == old(self)@.update(slot as int, s.freed())
                } else {
                    r is None && *final(self) == *old(self) && final(out)@ == old(out)@
                }
            }),
    {
        let s = self.slots[slot];
        assert(s@ == self@[slot as int]);
        if !s.is_complete() {
            return None;
        }
        match s.total_len {
            None => None,
            Some(t) => {
                let len: usize = t as usize;
                assert(s.buf@.subrange(0, len as int) =~= s.buf@.take(len as int));
                write_bytes(out, 0, &s.buf[0..len]);
                self.release(slot);
                Some((s.key, len))
            },
        }
    }

    /// A completed datagram, in place: its key and its bytes.
    pub fn completed(&self, slot: usize) -> (r: Option<(ReasmKey, &[u8])>)
        requires
            self.wf(),
        ensures
            match r {
                Some((key, bytes)) => {
                    &&& slot < REASM_SLOTS
                    &&& self@[slot as int].complete()
                    &&& key == self@[slot as int].key
                    &&& bytes@ == self@[slot as int].buf.take(
                        self@[slot as int].total_len->0 as int,
                    )
                },
                None => slot >= REASM_SLOTS || !self@[slot as int].complete(),
            },
    {
        if slot >= REASM_SLOTS {
            return None;
        }
        assert(self.slots@[slot as int]@ == self@[slot as int]);
        let s = &self.slots[slot];
        if !s.is_complete() {
            return None;
        }
        match s.total_len {
            None => None,
            Some(t) => {
                let len: usize = t as usize;
                assert(s.buf@.subrange(0, len as int) =~= s.buf@.take(len as int));
                Some((s.key, &s.buf[0..len]))
            },
        }
    }

    /// Free a slot.
    pub fn release(&mut self, slot: usize)
        requires
            old(self).wf(),
        ensures
            final(self).wf(),
            slot < REASM_SLOTS ==> final(self)@ == old(self)@.update(
                slot as int,
                old(self)@[slot as int].freed(),
            ),
            slot >= REASM_SLOTS ==> *final(self) == *old(self),
    {
        if slot < REASM_SLOTS {
            self.slots[slot].in_use = false;
            assert(self@ =~= old(self)@.update(slot as int, old(self)@[slot as int].freed()));
            assert(forall|i: int|
                0 <= i < REASM_SLOTS && i != slot ==> self.slots@[i] == old(self).slots@[i]);
        }
    }

    /// Expire a slot whose reassembly timer fired (RFC 791 section 3.2:
    /// discard on timer expiry).
    pub fn on_timer(&mut self, slot: usize)
        requires
            old(self).wf(),
        ensures
            final(self).wf(),
            slot < REASM_SLOTS ==> final(self)@ == old(self)@.update(
                slot as int,
                old(self)@[slot as int].freed(),
            ),
            slot >= REASM_SLOTS ==> *final(self) == *old(self),
    {
        self.release(slot);
    }

    /// Desired timer deadline per slot, for the stack's reconciliation.
    pub fn deadline(&self, slot: usize) -> (r: Option<Instant>)
        ensures
            r == if slot < REASM_SLOTS && self@[slot as int].in_use {
                Some(self@[slot as int].deadline)
            } else {
                None
            },
    {
        if slot < REASM_SLOTS && self.slots[slot].in_use {
            Some(self.slots[slot].deadline)
        } else {
            None
        }
    }

    /// Current generation of a slot: it changes each time the slot is taken
    /// into use.
    pub fn generation(&self, slot: usize) -> (r: u8)
        requires
            slot < REASM_SLOTS,
        ensures
            r == self@[slot as int].generation,
    {
        self.slots[slot].generation
    }

    fn drop_key(&mut self, key: &ReasmKey)
        requires
            old(self).wf(),
        ensures
            final(self).wf(),
            final(self)@ == key_dropped(old(self)@, *key),
    {
        let mut i: usize = 0;
        while i < REASM_SLOTS
            invariant
                i <= REASM_SLOTS,
                self.wf(),
                forall|j: int|
                    0 <= j < i ==> #[trigger] self@[j] == key_dropped(old(self)@, *key)[j],
                forall|j: int| i <= j < REASM_SLOTS ==> #[trigger] self@[j] == old(self)@[j],
            decreases REASM_SLOTS - i,
        {
            let ghost before = self@;
            assert(before[i as int] == old(self)@[i as int]);
            assert(before[i as int] == self.slots@[i as int]@);
            if self.slots[i].in_use && self.slots[i].key == *key {
                self.release(i);
            }
            i += 1;
        }
        assert(self@ =~= key_dropped(old(self)@, *key));
    }

    fn find_or_alloc(&mut self, now: Instant, timeout: Duration, key: &ReasmKey) -> (r: Option<
        usize,
    >)
        requires
            old(self).wf(),
        ensures
            final(self).wf(),
            ({
                let m = old(self)@;
                let known = slot_of(m, *key) as int;
                let free = slot_free(m, now) as int;
                if known < REASM_SLOTS {
                    r == Some(known as usize) && *final(self) == *old(self)
                } else if free < REASM_SLOTS {
                    &&& r == Some(free as usize)
                    &&& final(self)@ == m.update(free, m[free].started(*key, now + timeout))
                } else {
                    r is None && *final(self) == *old(self)
                }
            }),
            r matches Some(i) ==> i < REASM_SLOTS && final(self)@[i as int].in_use,
    {
        let ghost m = self@;
        let mut i: usize = 0;
        while i < REASM_SLOTS
            invariant
                i <= REASM_SLOTS,
                *self == *old(self),
                self.wf(),
                m == self@,
                forall|j: int|
                    0 <= j < i ==> !((#[trigger] m[j]).in_use && m[j].key == *key),
            decreases REASM_SLOTS - i,
        {
            assert(m[i as int] == self.slots@[i as int]@);
            if self.slots[i].in_use && self.slots[i].key == *key {
                proof {
                    lemma_slot_of_is(m, *key, i as int);
                }
                return Some(i);
            }
            i += 1;
        }
        proof {
            lemma_slot_of_is(m, *key, REASM_SLOTS as int);
        }
        // Expired slots are reaped lazily here as well as by their timers, so
        // a missed timer cannot wedge a slot.
        let mut k: usize = 0;
        while k < REASM_SLOTS
            invariant
                k <= REASM_SLOTS,
                *self == *old(self),
                self.wf(),
                m == self@,
                slot_of(m, *key) == REASM_SLOTS,
                forall|j: int|
                    0 <= j < k ==> (#[trigger] m[j]).in_use && m[j].deadline.micros > now.micros,
            decreases REASM_SLOTS - k,
        {
            assert(m[k as int] == self.slots@[k as int]@);
            if !self.slots[k].in_use || self.slots[k].deadline.micros <= now.micros {
                proof {
                    lemma_slot_free_is(m, now, k as int);
                }
                self.slots[k].start(*key, now + timeout);
                assert(self@ =~= m.update(k as int, m[k as int].started(*key, now + timeout)));
                assert(forall|j: int|
                    0 <= j < REASM_SLOTS && j != k ==> self.slots@[j] == old(self).slots@[j]);
                assert(slots_wf(self@));
                return Some(k);
            }
            k += 1;
        }
        proof {
            lemma_slot_free_is(m, now, REASM_SLOTS as int);
        }
        // Table full: drop the *new* datagram, keep older ones (favors
        // completing in-progress work; an attacker gains nothing by flooding
        // since slots are time-bounded).
        None
    }
}

/// A datagram is reported complete in the slot that reassembled its key.
pub proof fn complete_slot_holds_the_key(
    slots: Seq<SlotModel>,
    now: Instant,
    timeout: Duration,
    key: ReasmKey,
    offset: u32,
    more: bool,
    data: Seq<u8>,
)
    requires
        slots.len() <= usize::MAX,
    ensures
        pushed(slots, now, timeout, key, offset, more, data).1 matches ReasmResult::Complete {
            slot,
        } ==> {
            let s = pushed(slots, now, timeout, key, offset, more, data).0;
            &&& slot < s.len()
            &&& s[slot as int].key == key
            &&& s[slot as int].complete()
        },
{
    lemma_slot_of_props(slots, key);
}

/// A new datagram has the whole time for its fragments, from the first one that
/// arrives on; further fragments do not prolong it.
pub proof fn reassembly_time_starts_with_the_first_fragment(
    s: SlotModel,
    key: ReasmKey,
    deadline: Instant,
    offset: int,
    more: bool,
    data: Seq<u8>,
)
    ensures
        ({
            let t = s.started(key, deadline);
            &&& t.deadline == deadline && t.key == key && t.in_use
            &&& t.total_len is None
            &&& t.generation != s.generation
            &&& s.offered(offset, more, data).0.deadline == s.deadline
            &&& s.offered(offset, more, data).0.key == s.key
        }),
{
}

/// Fragments that no datagram can have are dropped and change nothing: one that
/// is not the last must carry a positive multiple of eight bytes. One that would
/// reach beyond what can be reassembled drops its whole datagram, and no other.
pub proof fn impossible_fragments_are_dropped(
    slots: Seq<SlotModel>,
    now: Instant,
    timeout: Duration,
    key: ReasmKey,
    offset: u32,
    more: bool,
    data: Seq<u8>,
    i: int,
)
    requires
        0 <= i < slots.len(),
    ensures
        more && (data.len() == 0 || data.len() % 8 != 0) ==> pushed(
            slots,
            now,
            timeout,
            key,
            offset,
            more,
            data,
        ) == (slots, ReasmResult::Dropped),
        !(more && (data.len() == 0 || data.len() % 8 != 0)) && offset + data.len() > REASM_BUF_SIZE
            ==> {
            let (after, r) = pushed(slots, now, timeout, key, offset, more, data);
            &&& r == ReasmResult::Dropped
            &&& slots[i].key == key ==> !after[i].in_use
            &&& slots[i].key != key ==> after[i] == slots[i]
        },
{
}

/// When every slot is in use by another datagram that still has time, a newcomer
/// is dropped, and none of them is given up for it.
pub proof fn full_reassembler_drops_newcomers(
    slots: Seq<SlotModel>,
    now: Instant,
    timeout: Duration,
    key: ReasmKey,
    offset: u32,
    more: bool,
    data: Seq<u8>,
)
    requires
        forall|i: int|
            0 <= i < slots.len() ==> (#[trigger] slots[i]).in_use && slots[i].key != key && now.micros
                < slots[i].deadline.micros,
        offset + data.len() <= REASM_BUF_SIZE,
    ensures
        pushed(slots, now, timeout, key, offset, more, data) == (slots, ReasmResult::Dropped),
{
    lemma_slot_of_is(slots, key, slots.len() as int);
    lemma_none_free(slots, now);
}

proof fn lemma_none_free(slots: Seq<SlotModel>, now: Instant)
    requires
        forall|i: int|
            0 <= i < slots.len() ==> (#[trigger] slots[i]).in_use && now.micros
                < slots[i].deadline.micros,
    ensures
        slot_free(slots, now) == slots.len(),
    decreases slots.len(),
{
    if slots.len() > 0 {
        let rest = slots.drop_first();
        assert(slots[0].in_use && now.micros < slots[0].deadline.micros);
        assert forall|i: int| 0 <= i < rest.len() implies (#[trigger] rest[i]).in_use && now.micros
            < rest[i].deadline.micros by {
            assert(rest[i] == slots[i + 1]);
        }
        lemma_none_free(rest, now);
    }
}

} // verus!
