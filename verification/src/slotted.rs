//! Slotted pages: a page interpreted as a fixed header, an upward-growing
//! slot directory, free space, and a downward-growing heap of record bytes.
//!
//! The header holds four little-endian 64-bit words: `slot_count`,
//! `free_slot`, `data_start`, `free_space`. An all-zero header signals a
//! fresh page and reads as `data_start = PAGE_SIZE`,
//! `free_space = PAGE_SIZE - HEADER_SIZE`. Slot ids grow monotonically:
//! removed slots are not reused, and heap bytes of removed records are not
//! reclaimed.

use crate::codec::{read_bytes_at, read_word_at, spec_word_at, write_bytes_at};
use crate::page::PAGE_SIZE;
use crate::tid::{
    lemma_empty_slot_parts, lemma_slot_raw, Slot, TID,
};
use vstd::prelude::*;

verus! {

/// Bytes of the page header: four 64-bit words.
pub const HEADER_SIZE: usize = 32;

/// Bytes of one slot directory word.
pub const SLOT_SIZE: usize = 8;

/// The decoded page header.
#[derive(Clone, Copy, PartialEq, Eq, Structural, Debug)]
pub struct PageHeader {
    pub slot_count: u64,
    pub free_slot: u64,
    pub data_start: u64,
    pub free_space: u64,
}

/// The header a page's bytes denote; an all-zero header reads as a fresh,
/// empty page.
pub open spec fn spec_header_of(s: Seq<u8>) -> PageHeader {
    let sc = spec_word_at(s, 0);
    let fs = spec_word_at(s, 8);
    let ds = spec_word_at(s, 16);
    let fr = spec_word_at(s, 24);
    if sc == 0 && fs == 0 && ds == 0 && fr == 0 {
        PageHeader {
            slot_count: 0,
            free_slot: 0,
            data_start: PAGE_SIZE as u64,
            free_space: (PAGE_SIZE - HEADER_SIZE) as u64,
        }
    } else {
        PageHeader { slot_count: sc, free_slot: fs, data_start: ds, free_space: fr }
    }
}

/// The raw 64-bit word of slot `i`.
pub open spec fn slot_word_of(s: Seq<u8>, i: int) -> u64 {
    spec_word_at(s, HEADER_SIZE + SLOT_SIZE * i)
}

/// Slot `i`, decoded.
pub open spec fn slot_of(s: Seq<u8>, i: int) -> Slot {
    Slot::spec_from_raw(slot_word_of(s, i))
}

/// The heap bytes slot `i` points at directly.
pub open spec fn record_at(s: Seq<u8>, i: int) -> Seq<u8> {
    let sl = slot_of(s, i);
    s.subrange(sl.offset_spec() as int, sl.offset_spec() + sl.len_spec())
}

/// A direct, nonempty slot points into the heap area below `data_start`.
pub open spec fn slot_wf(s: Seq<u8>, i: int, data_start: u64) -> bool {
    let sl = slot_of(s, i);
    !sl.is_tid_spec() && !sl.is_empty_spec() ==> data_start <= sl.offset_spec()
        && sl.offset_spec() + sl.len_spec() <= PAGE_SIZE
}

/// Well-formedness of a slotted page's bytes: `free_space` is what the heap
/// start leaves after the header and `slot_count` slot words, the directory
/// of `free_slot` entries ends at or before the heap, and every allocated
/// direct slot points into the heap.
pub open spec fn wf_page(s: Seq<u8>) -> bool {
    let h = spec_header_of(s);
    &&& s.len() == PAGE_SIZE
    &&& h.data_start <= PAGE_SIZE
    &&& h.free_space == h.data_start - HEADER_SIZE - SLOT_SIZE * (h.slot_count as int)
    &&& HEADER_SIZE + SLOT_SIZE * (h.free_slot as int) <= h.data_start
    &&& h.slot_count <= h.free_slot
    &&& forall|i: int| 0 <= i < h.free_slot ==> slot_wf(s, i, h.data_start)
}

/// Whether a page with this header accepts a record of `len` bytes: the free
/// space holds the record and a slot word, and — because removed slots free
/// accounting space but slot ids are never reused — the record must also
/// leave room for the directory to grow past `free_slot`. On a page that
/// never saw a removal (`slot_count == free_slot`) the second condition
/// follows from the first.
pub open spec fn can_accept(h: PageHeader, len: int) -> bool {
    &&& h.free_space >= len + SLOT_SIZE
    &&& HEADER_SIZE + SLOT_SIZE * (h.free_slot as int) + SLOT_SIZE + len <= h.data_start
}

/// A fresh, all-zero page is a well-formed empty slotted page.
pub proof fn lemma_zero_page_wf()
    ensures
        wf_page(crate::codec::spec_zeros(PAGE_SIZE as int)),
{
    let s = crate::codec::spec_zeros(PAGE_SIZE as int);
    crate::codec::lemma_word_at_zeros(PAGE_SIZE as int, 0);
    crate::codec::lemma_word_at_zeros(PAGE_SIZE as int, 8);
    crate::codec::lemma_word_at_zeros(PAGE_SIZE as int, 16);
    crate::codec::lemma_word_at_zeros(PAGE_SIZE as int, 24);
}

/// What a lookup found in a slot: the record's bytes, or the TID the slot
/// forwards to.
pub enum LookupResult {
    Direct(Vec<u8>),
    Indirect(TID),
}

/// What a removal asks of its caller: nothing more, or the removal of the
/// forwarding target.
pub enum DeleteResult {
    DeleteDone,
    DeleteCascade(TID),
}

/// What an update asks of its caller: nothing more, or the removal of the
/// old forwarding target.
pub enum UpdateResult {
    UpdateDone,
    DeleteOld(TID),
}

/// A page interpreted as a slotted page, owning its bytes.
pub struct SlottedPage {
    data: Vec<u8>,
}

impl View for SlottedPage {
    type V = Seq<u8>;

    closed spec fn view(&self) -> Seq<u8> {
        self.data@
    }
}

impl SlottedPage {
    /// The page is well formed.
    pub open spec fn wf(self) -> bool {
        wf_page(self@)
    }

    /// Interpret page bytes as a slotted page; a zero-filled page reads as
    /// fresh and empty.
    pub fn new(data: Vec<u8>) -> (r: SlottedPage)
        requires
            wf_page(data@),
        ensures
            r@ == data@,
            r.wf(),
    {
        SlottedPage { data }
    }

    /// Hand the page bytes back, to be written through the buffer manager.
    pub fn into_data(self) -> (r: Vec<u8>)
        ensures
            r@ == self@,
    {
        self.data
    }

    /// Decode the header, materializing a fresh page's defaults.
    pub fn read_header(&self) -> (h: PageHeader)
        requires
            self@.len() == PAGE_SIZE,
        ensures
            h == spec_header_of(self@),
    {
        let sc: u64 = read_word_at(&self.data, 0);
        let fs: u64 = read_word_at(&self.data, 8);
        let ds: u64 = read_word_at(&self.data, 16);
        let fr: u64 = read_word_at(&self.data, 24);
        if sc == 0 && fs == 0 && ds == 0 && fr == 0 {
            PageHeader {
                slot_count: 0,
                free_slot: 0,
                data_start: PAGE_SIZE as u64,
                free_space: (PAGE_SIZE - HEADER_SIZE) as u64,
            }
        } else {
            PageHeader { slot_count: sc, free_slot: fs, data_start: ds, free_space: fr }
        }
    }

    /// Write the four header words; every byte past the header stays.
    fn write_header(&mut self, h: PageHeader)
        requires
            old(self)@.len() == PAGE_SIZE,
        ensures
            final(self)@.len() == PAGE_SIZE,
            spec_word_at(final(self)@, 0) == h.slot_count,
            spec_word_at(final(self)@, 8) == h.free_slot,
            spec_word_at(final(self)@, 16) == h.data_start,
            spec_word_at(final(self)@, 24) == h.free_space,
            forall|i: int|
                HEADER_SIZE <= i < PAGE_SIZE ==> final(self)@[i] == old(self)@[i],
    {
        crate::codec::write_word_at(&mut self.data, 0, h.slot_count);
        let ghost s1 = self.data@;
        crate::codec::write_word_at(&mut self.data, 8, h.free_slot);
        let ghost s2 = self.data@;
        crate::codec::write_word_at(&mut self.data, 16, h.data_start);
        let ghost s3 = self.data@;
        crate::codec::write_word_at(&mut self.data, 24, h.free_space);
        proof {
            crate::codec::lemma_word_at_frame(s1, self.data@, 0);
            crate::codec::lemma_word_at_frame(s2, self.data@, 8);
            crate::codec::lemma_word_at_frame(s3, self.data@, 16);
        }
    }

    /// Decode slot `slot_id`.
    fn read_slot(&self, slot_id: usize) -> (r: Slot)
        requires
            self.wf(),
            slot_id < spec_header_of(self@).free_slot,
        ensures
            r == slot_of(self@, slot_id as int),
    {
        proof {
            lemma_slot_dir_in_bounds(self@, slot_id as int);
        }
        Slot::new(read_word_at(&self.data, HEADER_SIZE + SLOT_SIZE * slot_id))
    }

    /// Overwrite slot `slot_id`; the header, every other slot, and every
    /// byte outside the written slot word stay.
    fn write_slot(&mut self, slot_id: usize, slot: Slot)
        requires
            old(self).wf(),
            HEADER_SIZE + SLOT_SIZE * (slot_id as int) + SLOT_SIZE <= spec_header_of(
                old(self)@,
            ).data_start,
        ensures
            final(self)@.len() == PAGE_SIZE,
            slot_word_of(final(self)@, slot_id as int) == slot.raw(),
            spec_header_of(final(self)@) == spec_header_of(old(self)@),
            forall|j: int|
                0 <= j < spec_header_of(old(self)@).free_slot && j != slot_id ==> slot_word_of(
                    final(self)@,
                    j,
                ) == slot_word_of(old(self)@, j),
            forall|i: int|
                0 <= i < PAGE_SIZE && !(HEADER_SIZE + SLOT_SIZE * (slot_id as int) <= i
                    < HEADER_SIZE + SLOT_SIZE * (slot_id as int) + SLOT_SIZE) ==> final(self)@[i]
                    == old(self)@[i],
    {
        let ghost pre = self.data@;
        crate::codec::write_word_at(&mut self.data, HEADER_SIZE + SLOT_SIZE * slot_id, slot.as_u64());
        proof {
            let at = HEADER_SIZE + SLOT_SIZE * (slot_id as int);
            crate::codec::lemma_word_at_frame(pre, self.data@, 0);
            crate::codec::lemma_word_at_frame(pre, self.data@, 8);
            crate::codec::lemma_word_at_frame(pre, self.data@, 16);
            crate::codec::lemma_word_at_frame(pre, self.data@, 24);
            assert forall|j: int|
                0 <= j < spec_header_of(pre).free_slot && j != slot_id implies slot_word_of(
                self.data@,
                j,
            ) == slot_word_of(pre, j) by {
                lemma_slot_dir_in_bounds(pre, j);
                crate::codec::lemma_word_at_frame(
                    pre,
                    self.data@,
                    HEADER_SIZE + SLOT_SIZE * j,
                );
            }
        }
    }

    /// Insert the record's bytes if the page accepts them (`can_accept`: the
    /// free space holds the record and a slot word, and the record leaves
    /// room for the directory to grow): on success, the record sits at the
    /// new `data_start` under the next free slot id, and every prior slot,
    /// record, and header account is as before but for the space the record
    /// and its slot took. On refusal the page is untouched.
    pub fn try_insert(&mut self, rec: &Vec<u8>) -> (r: (bool, usize))
        requires
            old(self).wf(),
        ensures
            final(self).wf(),
            ({
                let h = spec_header_of(old(self)@);
                let hn = spec_header_of(final(self)@);
                if can_accept(h, rec@.len() as int) {
                    &&& r.0
                    &&& r.1 == h.free_slot
                    &&& hn.slot_count == h.slot_count + 1
                    &&& hn.free_slot == h.free_slot + 1
                    &&& hn.data_start == h.data_start - rec@.len()
                    &&& hn.free_space == h.free_space - (rec@.len() + SLOT_SIZE)
                    &&& slot_of(final(self)@, h.free_slot as int) == Slot::spec_from_offset_len(
                        (h.data_start - rec@.len()) as u64,
                        rec@.len() as u64,
                    )
                    &&& !slot_of(final(self)@, h.free_slot as int).is_tid_spec()
                    &&& !slot_of(final(self)@, h.free_slot as int).is_empty_spec()
                    &&& slot_of(final(self)@, h.free_slot as int).offset_spec()
                        == hn.data_start
                    &&& slot_of(final(self)@, h.free_slot as int).len_spec() == rec@.len()
                    &&& record_at(final(self)@, h.free_slot as int) == rec@
                    &&& forall|j: int|
                        0 <= j < h.free_slot ==> slot_word_of(final(self)@, j) == slot_word_of(
                            old(self)@,
                            j,
                        )
                    &&& forall|j: int|
                        0 <= j < h.free_slot && !slot_of(old(self)@, j).is_tid_spec()
                            ==> record_at(final(self)@, j) == record_at(old(self)@, j)
                } else {
                    &&& !r.0
                    &&& r.1 == 0
                    &&& final(self)@ == old(self)@
                }
            }),
    {
        let h: PageHeader = self.read_header();
        proof {
            lemma_header_bounds(self@);
        }
        let rec_len_usize: usize = rec.len();
        if rec_len_usize >= PAGE_SIZE {
            proof {
                assert(!can_accept(spec_header_of(self@), rec@.len() as int));
            }
            return (false, 0);
        }
        let rec_len: u64 = rec_len_usize as u64;
        if h.free_space < rec_len + (SLOT_SIZE as u64) {
            return (false, 0);
        }
        if (HEADER_SIZE as u64) + (SLOT_SIZE as u64) * h.free_slot + (SLOT_SIZE as u64)
            + rec_len > h.data_start {
            return (false, 0);
        }
        let ghost s0 = self@;
        let ghost hg = spec_header_of(s0);
        let ds_new: u64 = h.data_start - rec_len;
        let slot: Slot = Slot::new_from_offset_len(ds_new as usize, rec_len_usize);
        let free_slot_id: usize = h.free_slot as usize;
        proof {
            assert(HEADER_SIZE + SLOT_SIZE * (free_slot_id as int) + SLOT_SIZE
                <= hg.data_start);
        }
        self.write_slot(free_slot_id, slot);
        let ghost s1 = self@;
        write_bytes_at(&mut self.data, ds_new as usize, rec);
        let ghost s2 = self@;
        let h2 = PageHeader {
            slot_count: h.slot_count + 1,
            free_slot: h.free_slot + 1,
            data_start: ds_new,
            free_space: h.free_space - (rec_len + (SLOT_SIZE as u64)),
        };
        self.write_header(h2);
        let ghost s3 = self@;
        proof {
            let fsl = hg.free_slot as int;
            // The rewritten header is not all zero: data_start stays positive.
            assert(spec_header_of(s3) == h2) by {
                assert(h2.data_start >= HEADER_SIZE + SLOT_SIZE);
            }
            // The new slot word survives the record write and the header write.
            assert(slot_word_of(s3, fsl) == slot.raw()) by {
                assert(HEADER_SIZE + SLOT_SIZE * fsl + SLOT_SIZE <= ds_new);
                crate::codec::lemma_word_at_frame(s1, s2, HEADER_SIZE + SLOT_SIZE * fsl);
                crate::codec::lemma_word_at_frame(s2, s3, HEADER_SIZE + SLOT_SIZE * fsl);
            }
            lemma_slot_raw(slot, 0);
            // The record bytes sit at the new data start, untouched by the
            // header write.
            assert(record_at(s3, fsl) == rec@) by {
                assert(s2.subrange(ds_new as int, ds_new + rec@.len()) == rec@);
                assert(s3.subrange(ds_new as int, ds_new + rec@.len()) =~= s2.subrange(
                    ds_new as int,
                    ds_new + rec@.len(),
                ));
            }
            // Prior slot words are outside every written range.
            assert forall|j: int| 0 <= j < fsl implies slot_word_of(s3, j) == slot_word_of(
                s0,
                j,
            ) by {
                lemma_slot_dir_in_bounds(s0, j);
                crate::codec::lemma_word_at_frame(s1, s2, HEADER_SIZE + SLOT_SIZE * j);
                crate::codec::lemma_word_at_frame(s2, s3, HEADER_SIZE + SLOT_SIZE * j);
            }
            // Prior direct records live at or above the old data start, and
            // nothing at or above it was written.
            assert forall|j: int|
                0 <= j < fsl && !slot_of(s0, j).is_tid_spec() implies record_at(s3, j)
                == record_at(s0, j) by {
                let sl = slot_of(s0, j);
                assert(slot_of(s3, j) == sl);
                assert(slot_wf(s0, j, hg.data_start));
                if sl.is_empty_spec() {
                    lemma_empty_slot_parts();
                    lemma_slot_raw(sl, 0);
                    assert(record_at(s3, j) =~= record_at(s0, j));
                } else {
                    assert(hg.data_start <= sl.offset_spec() && sl.offset_spec()
                        + sl.len_spec() <= PAGE_SIZE);
                    assert(HEADER_SIZE + SLOT_SIZE * fsl + SLOT_SIZE <= ds_new);
                    assert(record_at(s3, j) =~= record_at(s0, j));
                }
            }
            // Well-formedness of the new page.
            assert(wf_page(s3)) by {
                assert forall|i: int| 0 <= i < h2.free_slot implies slot_wf(
                    s3,
                    i,
                    h2.data_start,
                ) by {
                    if i < fsl {
                        assert(slot_word_of(s3, i) == slot_word_of(s0, i));
                        assert(slot_of(s3, i) == slot_of(s0, i));
                        assert(slot_wf(s0, i, hg.data_start));
                    } else {
                        assert(i == fsl);
                        assert(slot_of(s3, i) == slot);
                    }
                }
            }
        }
        (true, free_slot_id)
    }

    /// Read slot `slot_id`: the record's bytes if direct, or the TID to
    /// chase if the slot forwards.
    pub fn lookup(&self, slot_id: usize) -> (r: LookupResult)
        requires
            self.wf(),
            slot_id < spec_header_of(self@).free_slot,
        ensures
            ({
                let sl = slot_of(self@, slot_id as int);
                match r {
                    LookupResult::Indirect(t) => sl.is_tid_spec() && t == sl.as_tid_spec(),
                    LookupResult::Direct(v) => !sl.is_tid_spec() && v@ == record_at(
                        self@,
                        slot_id as int,
                    ),
                }
            }),
    {
        let slot: Slot = self.read_slot(slot_id);
        if slot.is_tid() {
            return LookupResult::Indirect(slot.as_tid());
        }
        let off: usize = slot.offset();
        let len: usize = slot.len();
        proof {
            assert(slot_wf(self@, slot_id as int, spec_header_of(self@).data_start));
            if slot.is_empty_spec() {
                lemma_empty_slot_parts();
                lemma_slot_raw(slot, 0);
            }
        }
        let v: Vec<u8> = read_bytes_at(&self.data, off, len);
        LookupResult::Direct(v)
    }

    /// Redirect slot `slot_id` to `new_tid`. The header and every other
    /// slot and heap byte stay; the result tells the caller whether an old
    /// forwarding target must be removed.
    pub fn update(&mut self, slot_id: usize, new_tid: TID) -> (r: UpdateResult)
        requires
            old(self).wf(),
            slot_id < spec_header_of(old(self)@).free_slot,
            new_tid.wf(),
        ensures
            final(self).wf(),
            final(self)@.len() == PAGE_SIZE,
            spec_header_of(final(self)@) == spec_header_of(old(self)@),
            slot_of(final(self)@, slot_id as int) == Slot::spec_from_tid(new_tid),
            forall|j: int|
                0 <= j < spec_header_of(old(self)@).free_slot && j != slot_id
                    ==> slot_word_of(final(self)@, j) == slot_word_of(old(self)@, j),
            forall|j: int|
                0 <= j < spec_header_of(old(self)@).free_slot && j != slot_id && !slot_of(
                    old(self)@,
                    j,
                ).is_tid_spec() ==> record_at(final(self)@, j) == record_at(old(self)@, j),
            ({
                let sl = slot_of(old(self)@, slot_id as int);
                match r {
                    UpdateResult::DeleteOld(t) => sl.is_tid_spec() && t == sl.as_tid_spec(),
                    UpdateResult::UpdateDone => !sl.is_tid_spec(),
                }
            }),
    {
        let slot: Slot = self.read_slot(slot_id);
        let ghost s0 = self@;
        let new_slot: Slot = Slot::new_from_tid(new_tid);
        self.write_slot(slot_id, new_slot);
        proof {
            lemma_slot_raw(new_slot, 0);
            let hg = spec_header_of(s0);
            assert forall|j: int|
                0 <= j < hg.free_slot && j != slot_id && !slot_of(s0, j).is_tid_spec() implies record_at(
                self@,
                j,
            ) == record_at(s0, j) by {
                let sl = slot_of(s0, j);
                assert(slot_of(self@, j) == sl);
                assert(slot_wf(s0, j, hg.data_start));
                lemma_slot_dir_in_bounds(s0, slot_id as int);
                if sl.is_empty_spec() {
                    lemma_empty_slot_parts();
                    lemma_slot_raw(sl, 0);
                    assert(record_at(self@, j) =~= record_at(s0, j));
                } else {
                    assert(record_at(self@, j) =~= record_at(s0, j));
                }
            }
            assert(wf_page(self@)) by {
                let hg2 = spec_header_of(self@);
                assert forall|i: int| 0 <= i < hg2.free_slot implies slot_wf(
                    self@,
                    i,
                    hg2.data_start,
                ) by {
                    if i != slot_id {
                        assert(slot_word_of(self@, i) == slot_word_of(s0, i));
                        assert(slot_of(self@, i) == slot_of(s0, i));
                        assert(slot_wf(s0, i, hg.data_start));
                    } else {
                        assert(slot_of(self@, i) == Slot::spec_from_tid(new_tid));
                    }
                }
            }
        }
        if slot.is_tid() {
            UpdateResult::DeleteOld(slot.as_tid())
        } else {
            UpdateResult::UpdateDone
        }
    }

    /// Zero slot `slot_id`, drop one from the slot count and credit the slot
    /// word's space back to `free_space`; removing an already-empty slot
    /// changes nothing. Heap bytes are not reclaimed and slot ids are not
    /// reused. The result tells the caller whether a forwarding target must
    /// also be removed.
    pub fn remove(&mut self, slot_id: usize) -> (r: DeleteResult)
        requires
            old(self).wf(),
            slot_id < spec_header_of(old(self)@).free_slot,
        ensures
            final(self).wf(),
            final(self)@.len() == PAGE_SIZE,
            ({
                let sl = slot_of(old(self)@, slot_id as int);
                let h = spec_header_of(old(self)@);
                let hn = spec_header_of(final(self)@);
                if sl.is_empty_spec() {
                    &&& final(self)@ == old(self)@
                    &&& r == DeleteResult::DeleteDone
                } else {
                    &&& slot_of(final(self)@, slot_id as int).is_empty_spec()
                    &&& hn.free_slot == h.free_slot
                    &&& hn.data_start == h.data_start
                    &&& hn.free_space == if h.slot_count > 0 {
                        (h.free_space + SLOT_SIZE) as u64
                    } else {
                        h.free_space
                    }
                    &&& hn.slot_count == if h.slot_count > 0 {
                        (h.slot_count - 1) as u64
                    } else {
                        0u64
                    }
                    &&& forall|j: int|
                        0 <= j < h.free_slot && j != slot_id ==> slot_word_of(
                            final(self)@,
                            j,
                        ) == slot_word_of(old(self)@, j)
                    &&& forall|j: int|
                        0 <= j < h.free_slot && j != slot_id && !slot_of(
                            old(self)@,
                            j,
                        ).is_tid_spec() ==> record_at(final(self)@, j) == record_at(
                            old(self)@,
                            j,
                        )
                    &&& match r {
                        DeleteResult::DeleteCascade(t) => sl.is_tid_spec() && t
                            == sl.as_tid_spec(),
                        DeleteResult::DeleteDone => !sl.is_tid_spec(),
                    }
                }
            }),
    {
        let slot: Slot = self.read_slot(slot_id);
        if slot.is_empty() {
            return DeleteResult::DeleteDone;
        }
        let h: PageHeader = self.read_header();
        let ghost s0 = self@;
        let ghost hg = spec_header_of(s0);
        self.write_slot(slot_id, Slot::empty());
        let ghost s1 = self@;
        proof {
            lemma_header_bounds(s0);
        }
        let h2 = if h.slot_count > 0 {
            PageHeader {
                slot_count: h.slot_count - 1,
                free_slot: h.free_slot,
                data_start: h.data_start,
                free_space: h.free_space + (SLOT_SIZE as u64),
            }
        } else {
            h
        };
        self.write_header(h2);
        let ghost s2 = self@;
        proof {
            assert(spec_header_of(s2) == h2) by {
                assert(h2.data_start >= HEADER_SIZE);
            }
            lemma_slot_raw(Slot::spec_from_raw(0), 0);
            assert(slot_word_of(s2, slot_id as int) == 0) by {
                lemma_slot_dir_in_bounds(s0, slot_id as int);
                crate::codec::lemma_word_at_frame(
                    s1,
                    s2,
                    HEADER_SIZE + SLOT_SIZE * (slot_id as int),
                );
            }
            assert forall|j: int| 0 <= j < hg.free_slot && j != slot_id implies slot_word_of(
                s2,
                j,
            ) == slot_word_of(s0, j) by {
                lemma_slot_dir_in_bounds(s0, j);
                crate::codec::lemma_word_at_frame(s1, s2, HEADER_SIZE + SLOT_SIZE * j);
            }
            assert forall|j: int|
                0 <= j < hg.free_slot && j != slot_id && !slot_of(s0, j).is_tid_spec() implies record_at(
                s2,
                j,
            ) == record_at(s0, j) by {
                let sl = slot_of(s0, j);
                assert(slot_of(s2, j) == sl);
                assert(slot_wf(s0, j, hg.data_start));
                lemma_slot_dir_in_bounds(s0, slot_id as int);
                if sl.is_empty_spec() {
                    lemma_empty_slot_parts();
                    lemma_slot_raw(sl, 0);
                    assert(record_at(s2, j) =~= record_at(s0, j));
                } else {
                    assert(record_at(s2, j) =~= record_at(s0, j));
                }
            }
            assert(wf_page(s2)) by {
                lemma_empty_slot_parts();
                assert forall|i: int| 0 <= i < h2.free_slot implies slot_wf(
                    s2,
                    i,
                    h2.data_start,
                ) by {
                    if i != slot_id {
                        assert(slot_word_of(s2, i) == slot_word_of(s0, i));
                        assert(slot_of(s2, i) == slot_of(s0, i));
                        assert(slot_wf(s0, i, hg.data_start));
                    } else {
                        assert(slot_of(s2, i).is_empty_spec());
                    }
                }
            }
        }
        if slot.is_tid() {
            DeleteResult::DeleteCascade(slot.as_tid())
        } else {
            DeleteResult::DeleteDone
        }
    }
}

/// The space accounting every well-formed page keeps, and so every page
/// after any succeeding sequence of inserts and removals: the free space,
/// the slot words in use, the heap in use, and the header tile the page
/// exactly.
pub proof fn lemma_space_accounting(s: Seq<u8>)
    requires
        wf_page(s),
    ensures
        ({
            let h = spec_header_of(s);
            h.free_space + h.slot_count * SLOT_SIZE + (PAGE_SIZE - h.data_start) + HEADER_SIZE
                == PAGE_SIZE
        }),
{
}

/// Slot directory entries of a well-formed page lie between the header and
/// `data_start`.
proof fn lemma_slot_dir_in_bounds(s: Seq<u8>, i: int)
    requires
        wf_page(s),
        0 <= i < spec_header_of(s).free_slot,
    ensures
        HEADER_SIZE + SLOT_SIZE * i + SLOT_SIZE <= spec_header_of(s).data_start,
        HEADER_SIZE + SLOT_SIZE * i + SLOT_SIZE <= PAGE_SIZE,
{
    let h = spec_header_of(s);
    assert(SLOT_SIZE * i + SLOT_SIZE <= SLOT_SIZE * (h.free_slot as int)) by (nonlinear_arith)
        requires
            0 <= i < h.free_slot,
    {
    }
}

/// Header bounds of a well-formed page that the operations lean on.
proof fn lemma_header_bounds(s: Seq<u8>)
    requires
        wf_page(s),
    ensures
        ({
            let h = spec_header_of(s);
            &&& HEADER_SIZE <= h.data_start <= PAGE_SIZE
            &&& h.free_space <= PAGE_SIZE - HEADER_SIZE
            &&& SLOT_SIZE * (h.free_slot as int) <= PAGE_SIZE - HEADER_SIZE
            &&& h.free_slot <= 508
            &&& h.slot_count <= 508
        }),
{
    let h = spec_header_of(s);
    assert(h.free_slot <= 508) by (nonlinear_arith)
        requires
            SLOT_SIZE * (h.free_slot as int) <= PAGE_SIZE - HEADER_SIZE,
            SLOT_SIZE == 8,
            PAGE_SIZE == 4096,
            HEADER_SIZE == 32,
    {
    }
}

} // verus!
