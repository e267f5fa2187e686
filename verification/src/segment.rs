//! The slotted-page segment: a record store over one segment of the buffer
//! manager's page space, addressing variable-length records by stable TIDs.
//!
//! Records keep their TID for life: an update that outgrows its slot inserts
//! the new bytes elsewhere and leaves a forwarding slot behind, and lookups
//! chase at most one forward. Removal of a forwarding slot cascades to its
//! target.

use crate::buffer::{BufferManager, FrameHandle};
use crate::codec::read_bytes_at;
use crate::page::{join_segment, PAGE_SIZE, SEGMENT_PAGES};
use crate::slotted::{
    can_accept, record_at, slot_of, spec_header_of, wf_page, DeleteResult, LookupResult,
    SlottedPage, UpdateResult, HEADER_SIZE, SLOT_SIZE,
};
use crate::tid::TID;
use vstd::prelude::*;

verus! {

/// An opaque byte record.
#[derive(PartialEq, Eq, Debug)]
pub struct Record {
    data: Vec<u8>,
}

impl View for Record {
    type V = Seq<u8>;

    closed spec fn view(&self) -> Seq<u8> {
        self.data@
    }
}

impl Record {
    /// Wrap record bytes; they are moved, not copied.
    pub fn new(data: Vec<u8>) -> (r: Record)
        ensures
            r@ == data@,
    {
        Record { data }
    }

    /// The record's length in bytes.
    pub fn len(&self) -> (r: usize)
        ensures
            r == self@.len(),
    {
        self.data.len()
    }

    /// Borrow the record's bytes.
    pub fn get_data(&self) -> (r: &Vec<u8>)
        ensures
            r@ == self@,
    {
        &self.data
    }
}

/// A record store over the pages of one segment.
pub struct SPSegment {
    id: u64,
    manager: BufferManager,
}

/// The page id of offset `p` within segment `id`.
pub open spec fn segment_page_pid(id: u64, p: u64) -> u64 {
    (id * SEGMENT_PAGES + p) as u64
}

impl SPSegment {
    /// The segment's id.
    pub closed spec fn id_spec(self) -> u64 {
        self.id
    }

    /// The page id of offset `p` within this segment.
    pub closed spec fn page_pid(self, p: u64) -> u64 {
        segment_page_pid(self.id, p)
    }

    /// The current bytes of the segment page at offset `p`.
    pub closed spec fn page_of(self, p: u64) -> Seq<u8> {
        self.manager.contents(self.page_pid(p))
    }

    /// No page is pinned: every operation leaves the manager quiescent.
    pub closed spec fn quiescent(self) -> bool {
        forall|q: u64| self.manager.pins(q) == 0
    }

    /// Well-formedness: a well-formed manager with room for a frame, nothing
    /// pinned, and every page of the segment a well-formed slotted page.
    pub closed spec fn wf(self) -> bool {
        &&& self.manager.wf()
        &&& self.id < SEGMENT_PAGES
        &&& self.manager.capacity_spec() >= 1
        &&& self.quiescent()
        &&& forall|p: u64| p < SEGMENT_PAGES ==> wf_page(self.page_of(p))
    }

    /// The slot a TID addresses.
    pub closed spec fn slot_at(self, t: TID) -> crate::tid::Slot {
        slot_of(self.page_of(t.page_spec()), t.slot_spec() as int)
    }

    /// Whether the TID addresses an allocated slot of its page.
    pub closed spec fn allocated(self, t: TID) -> bool {
        t.wf() && t.slot_spec() < spec_header_of(self.page_of(t.page_spec())).free_slot
    }

    /// Whether the TID's slot holds record bytes directly.
    pub closed spec fn direct(self, t: TID) -> bool {
        self.allocated(t) && !self.slot_at(t).is_tid_spec() && !self.slot_at(t).is_empty_spec()
    }

    /// Whether the TID's slot forwards to another TID.
    pub closed spec fn forwarding(self, t: TID) -> bool {
        self.allocated(t) && self.slot_at(t).is_tid_spec()
    }

    /// The TID a forwarding slot points at.
    pub closed spec fn forward_target(self, t: TID) -> TID {
        self.slot_at(t).as_tid_spec()
    }

    /// A TID is live when it resolves to record bytes in at most one hop.
    pub closed spec fn live(self, t: TID) -> bool {
        self.direct(t) || (self.forwarding(t) && self.direct(self.forward_target(t)))
    }

    /// The bytes a live TID resolves to.
    pub closed spec fn record_of(self, t: TID) -> Seq<u8> {
        if self.direct(t) {
            record_at(self.page_of(t.page_spec()), t.slot_spec() as int)
        } else {
            let ft = self.forward_target(t);
            record_at(self.page_of(ft.page_spec()), ft.slot_spec() as int)
        }
    }

    /// Whether `t2` reads through slot `t`: it is `t`, or forwards to `t`.
    pub closed spec fn reads_through(self, t2: TID, t: TID) -> bool {
        t2 == t || (self.forwarding(t2) && self.forward_target(t2) == t)
    }

    /// Build a segment over a buffer manager.
    pub fn new(id: u64, manager: BufferManager) -> (r: SPSegment)
        requires
            id < SEGMENT_PAGES,
            manager.wf(),
            manager.capacity_spec() >= 1,
            forall|q: u64| manager.pins(q) == 0,
            forall|p: u64|
                p < SEGMENT_PAGES ==> wf_page(manager.contents(segment_page_pid(id, p))),
        ensures
            r.wf(),
            r.id_spec() == id,
            forall|p: u64|
                p < SEGMENT_PAGES ==> r.page_of(p) == manager.contents(
                    segment_page_pid(id, p),
                ),
    {
        SPSegment { id, manager }
    }

    /// Hand the buffer manager back, for shutdown.
    pub fn into_manager(self) -> (r: BufferManager)
        ensures
            forall|p: u64|
                p < SEGMENT_PAGES ==> r.contents(segment_page_pid(self.id_spec(), p))
                    == self.page_of(p),
            self.wf() ==> r.wf() && (forall|q: u64| r.pins(q) == 0),
    {
        self.manager
    }

    /// Distinct page offsets of one segment name distinct page ids.
    proof fn lemma_pid_injective(self, p1: u64, p2: u64)
        requires
            self.id < SEGMENT_PAGES,
            p1 < SEGMENT_PAGES,
            p2 < SEGMENT_PAGES,
            p1 != p2,
        ensures
            self.page_pid(p1) != self.page_pid(p2),
    {
        assert(self.id * SEGMENT_PAGES + p1 < 0x1_0000_0000_0000_0000) by (nonlinear_arith)
            requires
                self.id < 0x1_0000_0000u64,
                p1 < 0x1_0000_0000u64,
                SEGMENT_PAGES == 0x1_0000_0000u64,
        {
        }
        assert(self.id * SEGMENT_PAGES + p2 < 0x1_0000_0000_0000_0000) by (nonlinear_arith)
            requires
                self.id < 0x1_0000_0000u64,
                p2 < 0x1_0000_0000u64,
                SEGMENT_PAGES == 0x1_0000_0000u64,
        {
        }
    }

    /// Fix the segment page at offset `p` and copy it out as a slotted page.
    fn fix_segment_page(&mut self, p: u64) -> (res: (FrameHandle, SlottedPage))
        requires
            old(self).wf(),
            p < SEGMENT_PAGES,
        ensures
            final(self).id_spec() == old(self).id_spec(),
            res.1@ == old(self).page_of(p),
            res.1.wf(),
            res.0.page_id_spec() == old(self).page_pid(p),
            final(self).manager.wf(),
            final(self).manager.capacity_spec() == old(self).manager.capacity_spec(),
            forall|q: u64| final(self).manager.contents(q) == old(self).manager.contents(q),
            forall|p2: u64| p2 < SEGMENT_PAGES ==> final(self).page_of(p2) == old(self).page_of(p2),
            final(self).manager.in_pool(res.0.page_id_spec()),
            final(self).manager.pins(res.0.page_id_spec()) == 1,
            forall|q: u64| q != res.0.page_id_spec() ==> final(self).manager.pins(q) == 0,
    {
        let pid: u64 = join_segment(self.id, p);
        proof {
            self.manager.lemma_quiescent_can_fix(pid);
        }
        let handle: FrameHandle = match self.manager.fix_page(pid) {
            Some(h) => h,
            None => {
                proof {
                    assert(false);
                }
                vstd::pervasive::unreached()
            },
        };
        let bytes: Vec<u8> = read_bytes_at(self.manager.read_fixed(&handle), 0, PAGE_SIZE);
        proof {
            assert(wf_page(old(self).page_of(p)));
            assert(self.page_of(p) == old(self).page_of(p));
            assert(bytes@ =~= self.page_of(p));
        }
        let sp = SlottedPage::new(bytes);
        (handle, sp)
    }

    /// Write a slotted page back through its handle and unpin it dirty; the
    /// segment is well formed again with only that page changed.
    fn store_segment_page(&mut self, handle: FrameHandle, sp: SlottedPage, Ghost(p): Ghost<u64>)
        requires
            p < SEGMENT_PAGES,
            handle.page_id_spec() == old(self).page_pid(p),
            old(self).id_spec() < SEGMENT_PAGES,
            old(self).manager.wf(),
            old(self).manager.capacity_spec() >= 1,
            old(self).manager.in_pool(handle.page_id_spec()),
            old(self).manager.pins(handle.page_id_spec()) == 1,
            forall|q: u64| q != handle.page_id_spec() ==> old(self).manager.pins(q) == 0,
            sp@.len() == PAGE_SIZE,
            sp.wf(),
            forall|p2: u64| p2 < SEGMENT_PAGES ==> wf_page(old(self).page_of(p2)),
        ensures
            final(self).wf(),
            final(self).id_spec() == old(self).id_spec(),
            final(self).manager.capacity_spec() == old(self).manager.capacity_spec(),
            final(self).page_of(p) == sp@,
            forall|p2: u64| p2 < SEGMENT_PAGES && p2 != p ==> final(self).page_of(p2) == old(self).page_of(p2),
    {
        let ghost pre = *self;
        let data: Vec<u8> = sp.into_data();
        self.manager.write_fixed(&handle, data);
        self.manager.unfix_page(handle, true);
        proof {
            assert forall|p2: u64| p2 < SEGMENT_PAGES && p2 != p implies self.page_of(p2)
                == pre.page_of(p2) by {
                pre.lemma_pid_injective(p2, p);
            }
            assert(self.wf()) by {
                assert forall|q: u64| self.manager.pins(q) == 0 by {}
                assert forall|p2: u64| p2 < SEGMENT_PAGES implies wf_page(self.page_of(p2)) by {
                    if p2 != p {
                        pre.lemma_pid_injective(p2, p);
                        assert(wf_page(pre.page_of(p2)));
                        assert(self.page_of(p2) == pre.page_of(p2));
                    } else {
                        assert(self.page_of(p) == sp@);
                    }
                }
            }
        }
    }

    /// Unpin a page that was only read; nothing changes.
    fn release_segment_page(&mut self, handle: FrameHandle, Ghost(p): Ghost<u64>)
        requires
            p < SEGMENT_PAGES,
            handle.page_id_spec() == old(self).page_pid(p),
            old(self).id_spec() < SEGMENT_PAGES,
            old(self).manager.wf(),
            old(self).manager.capacity_spec() >= 1,
            old(self).manager.in_pool(handle.page_id_spec()),
            old(self).manager.pins(handle.page_id_spec()) == 1,
            forall|q: u64| q != handle.page_id_spec() ==> old(self).manager.pins(q) == 0,
            forall|p2: u64| p2 < SEGMENT_PAGES ==> wf_page(old(self).page_of(p2)),
        ensures
            final(self).wf(),
            final(self).id_spec() == old(self).id_spec(),
            final(self).manager.capacity_spec() == old(self).manager.capacity_spec(),
            forall|p2: u64| p2 < SEGMENT_PAGES ==> final(self).page_of(p2) == old(self).page_of(p2),
    {
        let ghost pre = *self;
        self.manager.unfix_page(handle, false);
        proof {
            assert(self.wf()) by {
                assert forall|q: u64| self.manager.pins(q) == 0 by {}
                assert forall|p2: u64| p2 < SEGMENT_PAGES implies wf_page(self.page_of(p2)) by {
                    assert(wf_page(pre.page_of(p2)));
                    assert(self.page_of(p2) == pre.page_of(p2));
                }
            }
        }
    }

    /// Store a record: scan the segment's pages in increasing offset order
    /// and place the bytes on the first page that accepts them. The returned
    /// TID is fresh and resolves to the record, no earlier page accepted the
    /// record, and every other live TID keeps its bytes. `None` comes
    /// exactly when no page of the segment accepts the record.
    #[verifier::loop_isolation(false)]
    pub fn insert(&mut self, r: &Record) -> (res: Option<TID>)
        requires
            old(self).wf(),
        ensures
            final(self).wf(),
            final(self).id_spec() == old(self).id_spec(),
            match res {
                Some(t) => {
                    &&& t.wf()
                    &&& t.page_spec() < SEGMENT_PAGES
                    &&& !old(self).allocated(t)
                    &&& final(self).direct(t)
                    &&& final(self).live(t)
                    &&& final(self).record_of(t) == r@
                    &&& forall|t2: TID|
                        old(self).live(t2) && t2 != t ==> final(self).live(t2)
                            && final(self).record_of(t2) == old(self).record_of(t2)
                    &&& forall|t2: TID|
                        old(self).allocated(t2) && t2 != t ==> final(self).allocated(t2)
                            && final(self).slot_at(t2) == old(self).slot_at(t2)
                    &&& forall|p2: u64|
                        p2 < SEGMENT_PAGES && p2 != t.page_spec() ==> final(self).page_of(p2)
                            == old(self).page_of(p2)
                    &&& forall|p2: u64|
                        p2 < t.page_spec() ==> !can_accept(
                            spec_header_of(old(self).page_of(p2)),
                            r@.len() as int,
                        )
                },
                None => {
                    &&& forall|p2: u64|
                        p2 < SEGMENT_PAGES ==> final(self).page_of(p2) == old(self).page_of(
                            p2,
                        )
                    &&& forall|p2: u64|
                        p2 < SEGMENT_PAGES ==> !can_accept(
                            spec_header_of(old(self).page_of(p2)),
                            r@.len() as int,
                        )
                },
            },
    {
        let rec_len: usize = r.len();
        if rec_len > PAGE_SIZE - HEADER_SIZE - SLOT_SIZE {
            proof {
                assert forall|p2: u64| p2 < SEGMENT_PAGES implies !can_accept(
                    spec_header_of(self.page_of(p2)),
                    r@.len() as int,
                ) by {
                    assert(wf_page(self.page_of(p2)));
                }
            }
            return None;
        }
        let ghost orig = *self;
        let mut p: u64 = 0;
        while p < SEGMENT_PAGES
            invariant
                self.wf(),
                self.id_spec() == orig.id_spec(),
                forall|p2: u64| p2 < SEGMENT_PAGES ==> self.page_of(p2) == orig.page_of(p2),
                r@.len() + SLOT_SIZE <= PAGE_SIZE - HEADER_SIZE,
                forall|p2: u64|
                    p2 < p ==> !can_accept(spec_header_of(orig.page_of(p2)), r@.len() as int),
            decreases SEGMENT_PAGES - p,
        {
            let (handle, mut sp) = self.fix_segment_page(p);
            let ghost mid = *self;
            let ghost page0 = sp@;
            let (inserted, slot_id) = sp.try_insert(r.get_data());
            if inserted {
                let ghost page1 = sp@;
                let ghost h0 = spec_header_of(page0);
                proof {
                    assert(wf_page(page0));
                    assert(slot_id < 0x1_0000u64);
                    assert forall|p2: u64| p2 < SEGMENT_PAGES implies wf_page(
                        mid.page_of(p2),
                    ) by {
                        assert(mid.page_of(p2) == orig.page_of(p2));
                        assert(wf_page(orig.page_of(p2)));
                    }
                }
                self.store_segment_page(handle, sp, Ghost(p));
                let t: TID = TID::new(p, slot_id);
                proof {
                    let fsl = h0.free_slot as int;
                    assert(self.page_of(p) == page1);
                    assert(spec_header_of(page1).free_slot == h0.free_slot + 1);
                    assert(!orig.allocated(t));
                    assert(self.direct(t)) by {
                        assert(self.slot_at(t) == slot_of(page1, fsl));
                    }
                    assert(self.record_of(t) == r@) by {
                        assert(record_at(page1, fsl) == r@);
                    }
                    Self::lemma_live_frame(orig, *self, p, fsl);
                    assert forall|t2: TID| orig.live(t2) && t2 != t implies self.live(t2)
                        && self.record_of(t2) == orig.record_of(t2) by {
                        crate::tid::lemma_unpack_bounds(t2);
                        if t2.page_spec() == p && t2.slot_spec() == fsl {
                            crate::tid::lemma_tid_parts_unique(t2, t);
                            assert(false);
                        }
                        if orig.forwarding(t2) {
                            let ft = orig.forward_target(t2);
                            if ft.page_spec() == p && ft.slot_spec() == fsl {
                                assert(orig.direct(ft));
                                assert(false);
                            }
                        }
                    }
                    assert forall|t2: TID| orig.allocated(t2) && t2 != t implies self.allocated(
                        t2,
                    ) && self.slot_at(t2) == orig.slot_at(t2) by {
                        crate::tid::lemma_unpack_bounds(t2);
                        if t2.page_spec() == p && t2.slot_spec() == fsl {
                            crate::tid::lemma_tid_parts_unique(t2, t);
                            assert(false);
                        }
                        Self::lemma_slot_kept(orig, *self, p, fsl, t2);
                    }
                }
                return Some(t);
            }
            self.release_segment_page(handle, Ghost(p));
            proof {
                assert forall|p2: u64| p2 < SEGMENT_PAGES implies self.page_of(p2)
                    == orig.page_of(p2) by {
                    assert(self.page_of(p2) == mid.page_of(p2));
                }
                assert(page0 == orig.page_of(p));
                assert(!can_accept(spec_header_of(orig.page_of(p)), r@.len() as int));
            }
            p = p + 1;
        }
        None
    }

    /// Two segment states over the same pages resolve every TID alike.
    proof fn lemma_view_preserved(pre: SPSegment, post: SPSegment)
        requires
            post.id_spec() == pre.id_spec(),
            forall|p2: u64| p2 < SEGMENT_PAGES ==> post.page_of(p2) == pre.page_of(p2),
        ensures
            forall|t: TID| post.allocated(t) == pre.allocated(t),
            forall|t: TID| pre.allocated(t) ==> post.slot_at(t) == pre.slot_at(t),
            forall|t: TID| post.live(t) == pre.live(t),
            forall|t: TID| pre.live(t) ==> post.record_of(t) == pre.record_of(t),
            forall|t: TID| post.forwarding(t) == pre.forwarding(t),
            forall|t: TID| pre.forwarding(t) ==> post.forward_target(t) == pre.forward_target(
                t,
            ),
    {
        assert forall|t: TID| #![all_triggers] true implies {
            &&& post.allocated(t) == pre.allocated(t)
            &&& (pre.allocated(t) ==> post.slot_at(t) == pre.slot_at(t))
            &&& post.forwarding(t) == pre.forwarding(t)
            &&& (pre.forwarding(t) ==> post.forward_target(t) == pre.forward_target(t))
        } by {
            if t.wf() {
                crate::tid::lemma_unpack_bounds(t);
                assert(post.page_of(t.page_spec()) == pre.page_of(t.page_spec()));
            }
        }
        assert forall|t: TID| #![all_triggers] true implies {
            &&& post.live(t) == pre.live(t)
            &&& (pre.live(t) ==> post.record_of(t) == pre.record_of(t))
        } by {
            if t.wf() {
                crate::tid::lemma_unpack_bounds(t);
                assert(post.page_of(t.page_spec()) == pre.page_of(t.page_spec()));
                if pre.forwarding(t) {
                    let ft = pre.forward_target(t);
                    crate::tid::lemma_embedded_tid_wf(pre.slot_at(t));
                    crate::tid::lemma_unpack_bounds(ft);
                    assert(post.page_of(ft.page_spec()) == pre.page_of(ft.page_spec()));
                }
            }
        }
    }

    /// Fetch a live record's bytes, chasing at most one forwarding slot; the
    /// segment's pages are untouched.
    pub fn lookup(&mut self, tid: TID) -> (res: Record)
        requires
            old(self).wf(),
            old(self).live(tid),
        ensures
            final(self).wf(),
            final(self).id_spec() == old(self).id_spec(),
            forall|p2: u64|
                p2 < SEGMENT_PAGES ==> final(self).page_of(p2) == old(self).page_of(p2),
            res@ == old(self).record_of(tid),
    {
        proof {
            crate::tid::lemma_unpack_bounds(tid);
        }
        let page: u64 = tid.page_id();
        let slot_id: usize = tid.slot_id();
        let (handle, sp) = self.fix_segment_page(page);
        let r1: LookupResult = sp.lookup(slot_id);
        self.release_segment_page(handle, Ghost(page));
        match r1 {
            LookupResult::Direct(v) => {
                proof {
                    assert(old(self).direct(tid));
                }
                Record::new(v)
            },
            LookupResult::Indirect(t2) => {
                proof {
                    assert(!old(self).direct(tid));
                    assert(old(self).forwarding(tid));
                    assert(t2 == old(self).forward_target(tid));
                    assert(old(self).direct(t2));
                    crate::tid::lemma_unpack_bounds(t2);
                }
                let page2: u64 = t2.page_id();
                let slot2: usize = t2.slot_id();
                let (h2, sp2) = self.fix_segment_page(page2);
                proof {
                    assert(sp2@ == old(self).page_of(page2));
                }
                let r2: LookupResult = sp2.lookup(slot2);
                self.release_segment_page(h2, Ghost(page2));
                match r2 {
                    LookupResult::Direct(v) => Record::new(v),
                    LookupResult::Indirect(_) => {
                        proof {
                            assert(false);
                        }
                        vstd::pervasive::unreached()
                    },
                }
            },
        }
    }

    /// Zero one page slot through the buffer manager, leaving all other
    /// slots, records and pages alone; removing an unallocated or empty slot
    /// changes nothing.
    fn remove_slot(&mut self, t: TID) -> (res: DeleteResult)
        requires
            old(self).wf(),
            t.wf(),
        ensures
            final(self).wf(),
            final(self).id_spec() == old(self).id_spec(),
            !final(self).direct(t) && !final(self).forwarding(t),
            forall|t2: TID|
                old(self).allocated(t2) && t2 != t ==> final(self).allocated(t2) && final(self).slot_at(t2) == old(self).slot_at(t2),
            forall|t2: TID| final(self).allocated(t2) ==> old(self).allocated(t2),
            forall|t2: TID|
                old(self).live(t2) && t2 != t && !(old(self).forwarding(t2) && old(self).forward_target(t2) == t) ==> final(self).live(t2) && final(self).record_of(
                    t2,
                ) == old(self).record_of(t2),
            match res {
                DeleteResult::DeleteCascade(ft) => old(self).forwarding(t) && ft == old(self).forward_target(t),
                DeleteResult::DeleteDone => !old(self).forwarding(t),
            },
    {
        proof {
            crate::tid::lemma_unpack_bounds(t);
        }
        let page: u64 = t.page_id();
        let slot_id: usize = t.slot_id();
        let (handle, mut sp) = self.fix_segment_page(page);
        let h = sp.read_header();
        if (slot_id as u64) >= h.free_slot {
            self.release_segment_page(handle, Ghost(page));
            proof {
                Self::lemma_view_preserved(*old(self), *self);
                assert(!old(self).allocated(t));
            }
            return DeleteResult::DeleteDone;
        }
        let ghost m0 = *old(self);
        let d: DeleteResult = sp.remove(slot_id);
        self.store_segment_page(handle, sp, Ghost(page));
        proof {
            let j = t.slot_spec() as int;
            let pg0 = m0.page_of(page);
            let sl = slot_of(pg0, j);
            if sl.is_empty_spec() {
                assert(self.page_of(page) == pg0);
                Self::lemma_view_preserved(m0, *self);
                crate::tid::lemma_empty_slot_parts();
                crate::tid::lemma_slot_raw(sl, 0);
                assert(!m0.direct(t) && !m0.forwarding(t));
            } else {
                assert(spec_header_of(self.page_of(page)).free_slot == spec_header_of(
                    pg0,
                ).free_slot);
                assert(slot_of(self.page_of(page), j).is_empty_spec());
                crate::tid::lemma_empty_slot_parts();
                crate::tid::lemma_slot_raw(slot_of(self.page_of(page), j), 0);
                assert(!self.direct(t) && !self.forwarding(t));
                Self::lemma_live_frame(m0, *self, page, j);
                assert forall|t2: TID|
                    m0.live(t2) && t2 != t && !(m0.forwarding(t2) && m0.forward_target(t2)
                        == t) implies self.live(t2) && self.record_of(t2) == m0.record_of(
                    t2,
                ) by {
                    crate::tid::lemma_unpack_bounds(t2);
                    if t2.page_spec() == page && t2.slot_spec() == j {
                        crate::tid::lemma_tid_parts_unique(t2, t);
                        assert(false);
                    }
                    if m0.forwarding(t2) {
                        let ft = m0.forward_target(t2);
                        crate::tid::lemma_embedded_tid_wf(m0.slot_at(t2));
                        crate::tid::lemma_unpack_bounds(ft);
                        if ft.page_spec() == page && ft.slot_spec() == j {
                            assert(m0.direct(ft));
                            crate::tid::lemma_tid_parts_unique(ft, t);
                            assert(false);
                        }
                    }
                }
                assert forall|t2: TID| m0.allocated(t2) && t2 != t implies self.allocated(t2)
                    && self.slot_at(t2) == m0.slot_at(t2) by {
                    crate::tid::lemma_unpack_bounds(t2);
                    if t2.page_spec() == page && t2.slot_spec() == j {
                        crate::tid::lemma_tid_parts_unique(t2, t);
                        assert(false);
                    }
                    Self::lemma_slot_kept(m0, *self, page, j, t2);
                }
                assert forall|t2: TID| self.allocated(t2) implies m0.allocated(t2) by {
                    crate::tid::lemma_unpack_bounds(t2);
                    if t2.page_spec() != page {
                        assert(self.page_of(t2.page_spec()) == m0.page_of(t2.page_spec()));
                    }
                }
            }
        }
        d
    }

    /// Remove the record a TID addresses; a forwarding slot cascades to its
    /// target, whose slot is emptied too, so no record stays addressable
    /// through either. Removing a never-inserted or already-removed TID is a
    /// no-op.
    /// A forward chain deeper than one hop is an invariant violation; this
    /// removes the first two slots of such a chain and stops.
    pub fn remove(&mut self, tid: TID) -> (res: bool)
        requires
            old(self).wf(),
            tid.wf(),
        ensures
            final(self).wf(),
            final(self).id_spec() == old(self).id_spec(),
            res,
            !final(self).live(tid),
            forall|t2: TID|
                old(self).live(t2) && !old(self).reads_through(t2, tid) && (old(self).forwarding(tid) ==> !old(self).reads_through(
                    t2,
                    old(self).forward_target(tid),
                )) ==> final(self).live(t2) && final(self).record_of(t2) == old(self).record_of(t2),
    {
        let ghost m0 = *old(self);
        let d: DeleteResult = self.remove_slot(tid);
        match d {
            DeleteResult::DeleteDone => {
                proof {
                    assert(!self.live(tid));
                }
                true
            },
            DeleteResult::DeleteCascade(t2) => {
                let ghost m1 = *self;
                proof {
                    crate::tid::lemma_embedded_tid_wf(m0.slot_at(tid));
                }
                let d2: DeleteResult = self.remove_slot(t2);
                proof {
                    assert(!self.live(tid)) by {
                        if tid == t2 {
                        } else {
                            assert(!m1.direct(tid) && !m1.forwarding(tid));
                            if self.allocated(tid) {
                                if m1.allocated(tid) {
                                    assert(self.slot_at(tid) == m1.slot_at(tid));
                                } else {
                                    assert(false);
                                }
                            }
                        }
                    }
                    assert forall|t3: TID|
                        m0.live(t3) && !m0.reads_through(t3, tid) && !m0.reads_through(
                            t3,
                            t2,
                        ) implies self.live(t3) && self.record_of(t3) == m0.record_of(t3) by {
                        assert(m1.live(t3) && m1.record_of(t3) == m0.record_of(t3));
                        assert(!(m1.forwarding(t3) && m1.forward_target(t3) == t2)) by {
                            if m1.forwarding(t3) {
                                assert(m0.allocated(t3));
                                assert(m1.slot_at(t3) == m0.slot_at(t3));
                            }
                        }
                    }
                }
                true
            },
        }
    }

    /// Replace the record a live TID resolves to while keeping the TID: the
    /// new bytes are inserted elsewhere, the TID's slot becomes a forwarding
    /// slot embedding the record's new TID, and a previously forwarded-to
    /// record is removed. Returns false, changing nothing, exactly when no
    /// page of the segment accepts the new record.
    pub fn update(&mut self, tid: TID, r: &Record) -> (res: bool)
        requires
            old(self).wf(),
            old(self).live(tid),
        ensures
            final(self).wf(),
            final(self).id_spec() == old(self).id_spec(),
            res ==> final(self).live(tid) && final(self).record_of(tid) == r@,
            res ==> final(self).forwarding(tid) && final(self).slot_at(tid)
                == crate::tid::Slot::spec_from_tid(final(self).forward_target(tid)),
            res ==> final(self).direct(final(self).forward_target(tid)) && final(self).record_of(final(self).forward_target(tid)) == r@,
            res ==> forall|t2: TID|
                old(self).live(t2) && !old(self).reads_through(t2, tid) && (old(self).forwarding(tid) ==> !old(self).reads_through(
                    t2,
                    old(self).forward_target(tid),
                )) ==> final(self).live(t2) && final(self).record_of(t2) == old(self).record_of(t2),
            !res ==> forall|p2: u64|
                p2 < SEGMENT_PAGES ==> final(self).page_of(p2) == old(self).page_of(p2),
            !res ==> forall|p2: u64|
                p2 < SEGMENT_PAGES ==> !can_accept(
                    spec_header_of(old(self).page_of(p2)),
                    r@.len() as int,
                ),
    {
        let ghost m0 = *old(self);
        let new_tid: TID = match self.insert(r) {
            Some(t) => t,
            None => {
                return false;
            },
        };
        let ghost m1 = *self;
        proof {
            crate::tid::lemma_unpack_bounds(tid);
            assert(m0.allocated(tid));
            assert(tid != new_tid);
            assert(m1.live(tid) && m1.record_of(tid) == m0.record_of(tid));
            assert(m1.allocated(tid) && m1.slot_at(tid) == m0.slot_at(tid));
        }
        let page: u64 = tid.page_id();
        let slot_id: usize = tid.slot_id();
        let (handle, mut sp) = self.fix_segment_page(page);
        let u: UpdateResult = sp.update(slot_id, new_tid);
        proof {
            assert forall|p2: u64| p2 < SEGMENT_PAGES implies wf_page(self.page_of(p2)) by {
                assert(self.page_of(p2) == m1.page_of(p2));
            }
        }
        self.store_segment_page(handle, sp, Ghost(page));
        let ghost m2 = *self;
        proof {
            let j = tid.slot_spec() as int;
            crate::tid::lemma_from_tid_as_tid(new_tid);
            assert(m2.slot_at(tid) == crate::tid::Slot::spec_from_tid(new_tid));
            assert(m2.forwarding(tid));
            assert(m2.forward_target(tid) == new_tid);
            crate::tid::lemma_unpack_bounds(new_tid);
            if new_tid.page_spec() == page && new_tid.slot_spec() == j {
                crate::tid::lemma_tid_parts_unique(new_tid, tid);
                assert(false);
            }
            Self::lemma_slot_kept(m1, m2, page, j, new_tid);
            assert(m2.direct(new_tid));
            assert(m2.record_of(tid) == r@);
            assert(m2.live(tid));
            Self::lemma_live_frame(m1, m2, page, j);
        }
        match u {
            UpdateResult::UpdateDone => {
                proof {
                    let j = tid.slot_spec() as int;
                    assert forall|t2: TID|
                        m0.live(t2) && !m0.reads_through(t2, tid) implies self.live(t2)
                        && self.record_of(t2) == m0.record_of(t2) by {
                        crate::tid::lemma_unpack_bounds(t2);
                        assert(t2 != new_tid);
                        assert(m1.live(t2) && m1.record_of(t2) == m0.record_of(t2));
                        if t2.page_spec() == page && t2.slot_spec() == j {
                            crate::tid::lemma_tid_parts_unique(t2, tid);
                            assert(false);
                        }
                        if m1.forwarding(t2) {
                            let ft = m1.forward_target(t2);
                            crate::tid::lemma_embedded_tid_wf(m1.slot_at(t2));
                            crate::tid::lemma_unpack_bounds(ft);
                            if ft.page_spec() == page && ft.slot_spec() == j {
                                crate::tid::lemma_tid_parts_unique(ft, tid);
                                assert(m0.allocated(t2));
                                assert(m1.slot_at(t2) == m0.slot_at(t2));
                                assert(false);
                            }
                        }
                    }
                }
                true
            },
            UpdateResult::DeleteOld(t_old) => {
                proof {
                    let j = tid.slot_spec() as int;
                    crate::tid::lemma_embedded_tid_wf(m1.slot_at(tid));
                    assert(t_old == m0.forward_target(tid));
                    assert(m0.forwarding(tid));
                    assert(m0.direct(t_old));
                    assert(t_old != tid);
                    assert(t_old != new_tid);
                    crate::tid::lemma_unpack_bounds(t_old);
                    assert(m1.direct(t_old) && m1.slot_at(t_old) == m0.slot_at(t_old));
                    if t_old.page_spec() == page && t_old.slot_spec() == j {
                        crate::tid::lemma_tid_parts_unique(t_old, tid);
                        assert(false);
                    }
                    Self::lemma_slot_kept(m1, m2, page, j, t_old);
                    assert(m2.direct(t_old));
                }
                let d3: DeleteResult = self.remove_slot(t_old);
                proof {
                    let j = tid.slot_spec() as int;
                    assert(self.live(tid) && self.record_of(tid) == r@) by {
                        assert(m2.forwarding(tid) && m2.forward_target(tid) == new_tid);
                        assert(new_tid != t_old);
                        assert(tid != t_old);
                        assert(!(m2.forwarding(tid) && m2.forward_target(tid) == t_old));
                        assert(m2.live(tid));
                    }
                    assert forall|t2: TID|
                        m0.live(t2) && !m0.reads_through(t2, tid) && !m0.reads_through(
                            t2,
                            t_old,
                        ) implies self.live(t2) && self.record_of(t2) == m0.record_of(t2) by {
                        crate::tid::lemma_unpack_bounds(t2);
                        assert(t2 != new_tid);
                        assert(m1.live(t2) && m1.record_of(t2) == m0.record_of(t2));
                        assert(m0.allocated(t2));
                        assert(m1.allocated(t2) && m1.slot_at(t2) == m0.slot_at(t2));
                        if t2.page_spec() == page && t2.slot_spec() == j {
                            crate::tid::lemma_tid_parts_unique(t2, tid);
                            assert(false);
                        }
                        if m1.forwarding(t2) {
                            let ft = m1.forward_target(t2);
                            crate::tid::lemma_embedded_tid_wf(m1.slot_at(t2));
                            crate::tid::lemma_unpack_bounds(ft);
                            if ft.page_spec() == page && ft.slot_spec() == j {
                                crate::tid::lemma_tid_parts_unique(ft, tid);
                                assert(false);
                            }
                        }
                        assert(m2.live(t2) && m2.record_of(t2) == m1.record_of(t2));
                        Self::lemma_slot_kept(m1, m2, page, j, t2);
                        assert(!(m2.forwarding(t2) && m2.forward_target(t2) == t_old)) by {
                            if m2.forwarding(t2) {
                                assert(m2.slot_at(t2) == m0.slot_at(t2));
                            }
                        }
                        assert(t2 != t_old);
                    }
                }
                true
            },
        }
    }

    /// Frame rule at TID level: when only page `p` changed, its directory
    /// grew or stayed, and every slot but `excl` kept its word and (if
    /// direct) its record bytes, then every live TID that neither is slot
    /// `excl` nor forwards to it stays live with the same bytes.
    proof fn lemma_live_frame(pre: SPSegment, post: SPSegment, p: u64, excl: int)
        requires
            pre.id_spec() < SEGMENT_PAGES,
            post.id_spec() == pre.id_spec(),
            p < SEGMENT_PAGES,
            forall|p2: u64|
                p2 < SEGMENT_PAGES && p2 != p ==> post.page_of(p2) == pre.page_of(p2),
            spec_header_of(post.page_of(p)).free_slot >= spec_header_of(
                pre.page_of(p),
            ).free_slot,
            forall|j: int|
                0 <= j < spec_header_of(pre.page_of(p)).free_slot && j != excl
                    ==> crate::slotted::slot_word_of(post.page_of(p), j)
                    == crate::slotted::slot_word_of(pre.page_of(p), j),
            forall|j: int|
                0 <= j < spec_header_of(pre.page_of(p)).free_slot && j != excl && !slot_of(
                    pre.page_of(p),
                    j,
                ).is_tid_spec() ==> record_at(post.page_of(p), j) == record_at(
                    pre.page_of(p),
                    j,
                ),
        ensures
            forall|t2: TID|
                pre.live(t2) && !(t2.page_spec() == p && t2.slot_spec() == excl) && !(
                pre.forwarding(t2) && pre.forward_target(t2).page_spec() == p
                    && pre.forward_target(t2).slot_spec() == excl) ==> post.live(t2)
                    && post.record_of(t2) == pre.record_of(t2),
    {
        assert forall|t2: TID|
            pre.live(t2) && !(t2.page_spec() == p && t2.slot_spec() == excl) && !(pre.forwarding(
                t2,
            ) && pre.forward_target(t2).page_spec() == p && pre.forward_target(t2).slot_spec()
                == excl) implies post.live(t2) && post.record_of(t2) == pre.record_of(t2) by {
            crate::tid::lemma_unpack_bounds(t2);
            Self::lemma_slot_kept(pre, post, p, excl, t2);
            if pre.direct(t2) {
                assert(post.direct(t2));
                assert(post.record_of(t2) == pre.record_of(t2));
            } else {
                let ft = pre.forward_target(t2);
                assert(pre.direct(ft));
                crate::tid::lemma_unpack_bounds(ft);
                Self::lemma_slot_kept(pre, post, p, excl, ft);
                assert(post.forwarding(t2) && post.forward_target(t2) == ft);
                assert(post.direct(ft));
                assert(post.record_of(t2) == pre.record_of(t2));
            }
        }
    }

    /// One allocated slot, not the excluded one, keeps its word, its
    /// allocation, and (when direct) its record bytes.
    proof fn lemma_slot_kept(pre: SPSegment, post: SPSegment, p: u64, excl: int, t: TID)
        requires
            pre.id_spec() < SEGMENT_PAGES,
            post.id_spec() == pre.id_spec(),
            p < SEGMENT_PAGES,
            t.wf(),
            pre.allocated(t),
            !(t.page_spec() == p && t.slot_spec() == excl),
            forall|p2: u64|
                p2 < SEGMENT_PAGES && p2 != p ==> post.page_of(p2) == pre.page_of(p2),
            spec_header_of(post.page_of(p)).free_slot >= spec_header_of(
                pre.page_of(p),
            ).free_slot,
            forall|j: int|
                0 <= j < spec_header_of(pre.page_of(p)).free_slot && j != excl
                    ==> crate::slotted::slot_word_of(post.page_of(p), j)
                    == crate::slotted::slot_word_of(pre.page_of(p), j),
            forall|j: int|
                0 <= j < spec_header_of(pre.page_of(p)).free_slot && j != excl && !slot_of(
                    pre.page_of(p),
                    j,
                ).is_tid_spec() ==> record_at(post.page_of(p), j) == record_at(
                    pre.page_of(p),
                    j,
                ),
        ensures
            post.allocated(t),
            post.slot_at(t) == pre.slot_at(t),
            !pre.slot_at(t).is_tid_spec() ==> record_at(
                post.page_of(t.page_spec()),
                t.slot_spec() as int,
            ) == record_at(pre.page_of(t.page_spec()), t.slot_spec() as int),
    {
        crate::tid::lemma_unpack_bounds(t);
        if t.page_spec() != p {
            assert(post.page_of(t.page_spec()) == pre.page_of(t.page_spec()));
        } else {
            let j = t.slot_spec() as int;
            assert(j != excl);
            assert(crate::slotted::slot_word_of(post.page_of(p), j)
                == crate::slotted::slot_word_of(pre.page_of(p), j));
        }
    }
}

} // verus!
