//! Tuple identifiers and slot words.
//!
//! A TID is a 48-bit logical record identifier: a 32-bit page offset within a
//! segment in the high bits and a 16-bit slot index in the low bits. A slot is
//! a 64-bit directory word on a slotted page: either a direct reference
//! (24-bit heap offset and 24-bit length in the low 48 bits, high 16 bits
//! zero), a forwarding reference (high 16 bits all ones, a TID in the low 48
//! bits), or the all-zero word meaning "empty".

use vstd::prelude::*;

verus! {

/// Largest TID value plus one: TIDs occupy 48 bits.
pub const TID_LIMIT: u64 = 0x1_0000_0000_0000;

/// Number of slot indices a page can address: slot ids occupy 16 bits.
pub const SLOT_LIMIT: u64 = 0x1_0000;

/// High 16 bits of a slot word that forwards to another TID.
pub const FORWARD_MARKER: u64 = 0xffff;

/// Largest direct offset or length plus one: each occupies 24 bits.
pub const DIRECT_LIMIT: u64 = 0x100_0000;

/// A 48-bit tuple identifier, stable for the life of its record.
#[derive(Clone, Copy, PartialEq, Eq, Structural, Debug, Hash)]
pub struct TID(u64);

impl TID {
    /// A TID is well formed when it fits in 48 bits.
    pub open spec fn wf(self) -> bool {
        self.raw() < TID_LIMIT
    }

    /// The packed 48-bit value.
    pub closed spec fn raw(self) -> u64 {
        self.0
    }

    /// The page offset within the segment: the high 32 of the 48 bits.
    pub closed spec fn page_spec(self) -> u64 {
        self.0 >> 16u64
    }

    /// The slot index on that page: the low 16 bits.
    pub closed spec fn slot_spec(self) -> u64 {
        self.0 & 0xffffu64
    }

    /// Pack a page offset and a slot index into a TID.
    pub fn new(page_id: u64, slot_id: usize) -> (r: TID)
        requires
            page_id < 0x1_0000_0000u64,
            slot_id < SLOT_LIMIT,
        ensures
            r.wf(),
            r.page_spec() == page_id,
            r.slot_spec() == slot_id,
            r.raw() == page_id * SLOT_LIMIT + slot_id,
    {
        let n: u64 = (page_id << 16u64) | (slot_id as u64);
        proof {
            lemma_pack_page_slot(page_id, slot_id as u64);
        }
        TID(n)
    }

    /// Reconstruct a TID from its packed 48-bit value.
    pub fn new_from_u64(num: u64) -> (r: TID)
        requires
            num < TID_LIMIT,
        ensures
            r.wf(),
            r.raw() == num,
    {
        TID(num)
    }

    /// The page offset within the segment.
    pub fn page_id(&self) -> (r: u64)
        requires
            self.wf(),
        ensures
            r == self.page_spec(),
            r < 0x1_0000_0000u64,
    {
        proof {
            lemma_unpack_page_slot(self.0);
        }
        self.0 >> 16u64
    }

    /// The slot index on that page.
    pub fn slot_id(&self) -> (r: usize)
        ensures
            r == self.slot_spec(),
            r < SLOT_LIMIT,
    {
        proof {
            lemma_unpack_page_slot(self.0);
        }
        (self.0 & 0xffffu64) as usize
    }
}

/// Two well-formed TIDs with the same page offset and the same slot index are
/// the same TID.
pub proof fn lemma_tid_parts_unique(t1: TID, t2: TID)
    requires
        t1.wf(),
        t2.wf(),
        t1.page_spec() == t2.page_spec(),
        t1.slot_spec() == t2.slot_spec(),
    ensures
        t1 == t2,
{
    let n1 = t1.raw();
    let n2 = t2.raw();
    assert(n1 >> 16u64 == n2 >> 16u64 && (n1 & 0xffffu64) == (n2 & 0xffffu64) ==> n1 == n2)
        by (bit_vector);
}

proof fn lemma_pack_page_slot(p: u64, s: u64)
    by (bit_vector)
    requires
        p < 0x1_0000_0000u64,
        s < 0x1_0000u64,
    ensures
        ((p << 16u64) | s) < 0x1_0000_0000_0000u64,
        ((p << 16u64) | s) >> 16u64 == p,
        ((p << 16u64) | s) & 0xffffu64 == s,
        ((p << 16u64) | s) == p * 0x1_0000u64 + s,
{
}

proof fn lemma_unpack_page_slot(n: u64)
    by (bit_vector)
    ensures
        n < 0x1_0000_0000_0000u64 ==> (n >> 16u64) < 0x1_0000_0000u64,
        (n & 0xffffu64) < 0x1_0000u64,
{
}

/// A 64-bit slot word of a slotted page's directory.
#[derive(Clone, Copy, PartialEq, Eq, Structural, Debug)]
pub struct Slot(u64);

impl Slot {
    /// The packed 64-bit value.
    pub closed spec fn raw(self) -> u64 {
        self.0
    }

    /// The slot wrapping a raw 64-bit word.
    pub closed spec fn spec_from_raw(w: u64) -> Slot {
        Slot(w)
    }

    /// The all-zero word denotes an empty slot.
    pub open spec fn is_empty_spec(self) -> bool {
        self.raw() == 0
    }

    /// A slot forwards when its high 16 bits are all ones.
    pub closed spec fn is_tid_spec(self) -> bool {
        self.0 >> 48u64 == FORWARD_MARKER
    }

    /// The heap offset of a direct slot: bits 24 to 47.
    pub closed spec fn offset_spec(self) -> u64 {
        (self.0 >> 24u64) & 0xff_ffffu64
    }

    /// The record length of a direct slot: the low 24 bits.
    pub closed spec fn len_spec(self) -> u64 {
        self.0 & 0xff_ffffu64
    }

    /// The TID a forwarding slot embeds: its low 48 bits.
    pub closed spec fn as_tid_spec(self) -> TID {
        TID(self.0 & 0xffff_ffff_ffffu64)
    }

    /// The slot word a given TID forwards through.
    pub closed spec fn spec_from_tid(tid: TID) -> Slot {
        Slot((FORWARD_MARKER << 48u64) | tid.raw())
    }

    /// The slot word packing a direct (offset, length) pair.
    pub closed spec fn spec_from_offset_len(offset: u64, len: u64) -> Slot {
        Slot((offset << 24u64) | len)
    }

    /// Wrap a raw slot word.
    pub fn new(data: u64) -> (r: Slot)
        ensures
            r == Slot::spec_from_raw(data),
            r.raw() == data,
    {
        Slot(data)
    }

    /// The empty slot.
    pub fn empty() -> (r: Slot)
        ensures
            r.raw() == 0,
            r.is_empty_spec(),
    {
        Slot(0)
    }

    /// Pack a direct slot from a heap offset and a record length.
    pub fn new_from_offset_len(offset: usize, len: usize) -> (r: Slot)
        requires
            offset < DIRECT_LIMIT,
            len < DIRECT_LIMIT,
        ensures
            r == Slot::spec_from_offset_len(offset as u64, len as u64),
            !r.is_tid_spec(),
            r.offset_spec() == offset,
            r.len_spec() == len,
            r.is_empty_spec() <==> (offset == 0 && len == 0),
    {
        proof {
            lemma_pack_offset_len(offset as u64, len as u64);
        }
        Slot(((offset as u64) << 24u64) | (len as u64))
    }

    /// Pack a forwarding slot embedding a TID.
    pub fn new_from_tid(tid: TID) -> (r: Slot)
        requires
            tid.wf(),
        ensures
            r == Slot::spec_from_tid(tid),
            r.is_tid_spec(),
            r.as_tid_spec() == tid,
            !r.is_empty_spec(),
    {
        proof {
            lemma_from_tid_as_tid(tid);
        }
        Slot((FORWARD_MARKER << 48u64) | tid.raw_exec())
    }

    /// The heap offset of a direct slot.
    pub fn offset(&self) -> (r: usize)
        ensures
            r == self.offset_spec(),
            r < DIRECT_LIMIT,
    {
        proof {
            lemma_unpack_offset_len(self.0);
        }
        ((self.0 >> 24u64) & 0xff_ffffu64) as usize
    }

    /// The record length of a direct slot.
    pub fn len(&self) -> (r: usize)
        ensures
            r == self.len_spec(),
            r < DIRECT_LIMIT,
    {
        proof {
            lemma_unpack_offset_len(self.0);
        }
        (self.0 & 0xff_ffffu64) as usize
    }

    /// Whether the slot forwards to another TID.
    pub fn is_tid(&self) -> (r: bool)
        ensures
            r == self.is_tid_spec(),
    {
        (self.0 >> 48u64) == 0xffffu64
    }

    /// Whether the slot is the empty word.
    pub fn is_empty(&self) -> (r: bool)
        ensures
            r == self.is_empty_spec(),
    {
        self.0 == 0
    }

    /// The TID a forwarding slot embeds, recovered by clearing the high 16
    /// bits.
    pub fn as_tid(&self) -> (r: TID)
        requires
            self.is_tid_spec(),
    ensures
            r == self.as_tid_spec(),
            r.wf(),
    {
        proof {
            lemma_clear_high_bits(self.0);
        }
        let cleared: u64 = (self.0 << 16u64) >> 16u64;
        TID(cleared)
    }

    /// The raw 64-bit word.
    pub fn as_u64(&self) -> (r: u64)
        ensures
            r == self.raw(),
    {
        self.0
    }
}

impl TID {
    /// The packed 48-bit value, at run time.
    pub fn raw_exec(&self) -> (r: u64)
        ensures
            r == self.raw(),
    {
        self.0
    }
}

/// Bounds of a TID's parts: the page part of a well-formed TID fits in 32
/// bits, and the slot part always fits in 16.
pub proof fn lemma_unpack_bounds(t: TID)
    ensures
        t.wf() ==> t.page_spec() < 0x1_0000_0000u64,
        t.slot_spec() < SLOT_LIMIT,
{
    lemma_unpack_page_slot(t.raw());
}

/// Wrapping a slot's raw word gives back the slot, and the wrapped word is
/// the raw word: slots and their 64-bit words are in bijection.
pub proof fn lemma_slot_raw(s: Slot, w: u64)
    ensures
        Slot::spec_from_raw(s.raw()) == s,
        Slot::spec_from_raw(w).raw() == w,
{
}

/// The empty slot word is direct with offset and length zero.
pub proof fn lemma_empty_slot_parts()
    ensures
        Slot::spec_from_raw(0).offset_spec() == 0,
        Slot::spec_from_raw(0).len_spec() == 0,
        !Slot::spec_from_raw(0).is_tid_spec(),
        Slot::spec_from_raw(0).is_empty_spec(),
{
    assert((0u64 >> 24u64) & 0xff_ffffu64 == 0u64) by (bit_vector);
    assert(0u64 & 0xff_ffffu64 == 0u64) by (bit_vector);
    assert(0u64 >> 48u64 == 0u64) by (bit_vector);
}

/// The TID embedded in any slot word is well formed: clearing the high 16
/// bits leaves a 48-bit value.
pub proof fn lemma_embedded_tid_wf(s: Slot)
    ensures
        s.as_tid_spec().wf(),
{
    let n = s.raw();
    assert((n & 0xffff_ffff_ffffu64) < 0x1_0000_0000_0000u64) by (bit_vector);
}

/// Round trip of forwarding slots: for every legal TID, the slot built from it
/// is a forwarding slot that embeds exactly that TID.
pub proof fn lemma_from_tid_as_tid(tid: TID)
    requires
        tid.wf(),
    ensures
        Slot::spec_from_tid(tid).is_tid_spec(),
        Slot::spec_from_tid(tid).as_tid_spec() == tid,
        !Slot::spec_from_tid(tid).is_empty_spec(),
{
    let n = tid.raw();
    assert((((0xffffu64 << 48u64) | n) >> 48u64) == 0xffffu64 && n < 0x1_0000_0000_0000u64
        ==> ((0xffffu64 << 48u64) | n) & 0xffff_ffff_ffffu64 == n) by (bit_vector);
    assert(((0xffffu64 << 48u64) | n) >> 48u64 == 0xffffu64) by (bit_vector);
    assert(((0xffffu64 << 48u64) | n) != 0u64) by (bit_vector);
}

proof fn lemma_pack_offset_len(off: u64, len: u64)
    by (bit_vector)
    requires
        off < 0x100_0000u64,
        len < 0x100_0000u64,
    ensures
        ((off << 24u64) | len) >> 48u64 == 0u64,
        (((off << 24u64) | len) >> 24u64) & 0xff_ffffu64 == off,
        ((off << 24u64) | len) & 0xff_ffffu64 == len,
        (((off << 24u64) | len) == 0u64) <==> (off == 0u64 && len == 0u64),
{
}

proof fn lemma_unpack_offset_len(n: u64)
    by (bit_vector)
    ensures
        ((n >> 24u64) & 0xff_ffffu64) < 0x100_0000u64,
        (n & 0xff_ffffu64) < 0x100_0000u64,
{
}

proof fn lemma_clear_high_bits(n: u64)
    by (bit_vector)
    ensures
        (n << 16u64) >> 16u64 == n & 0xffff_ffff_ffffu64,
        (n & 0xffff_ffff_ffffu64) < 0x1_0000_0000_0000u64,
{
}

} // verus!
