//! The buffer manager: a fixed-capacity pool of in-memory page frames over a
//! disk image, with pinning, dirty write-back, random eviction and a flushing
//! shutdown.
//!
//! The pool holds at most `size` frames, each the current bytes of one page.
//! `fix_page` pins a page's frame, loading it from the disk if absent and
//! evicting a random unpinned frame if the pool is full; `unfix_page` unpins
//! it. Contracts speak of `contents(page_id)`: the frame bytes while the page
//! is pooled, its disk bytes otherwise. Every operation preserves the
//! contents of every page, so eviction and write-back are invisible to
//! readers, and `shutdown` hands back a disk holding the contents of every
//! page.

use crate::disk::Disk;
use crate::page::PAGE_SIZE;
use rand::RngExt;
use vstd::prelude::*;

verus! {

/// An in-memory copy of one page: its id, its bytes, and its pin count.
pub struct BufferFrame {
    page_id: u64,
    data: Vec<u8>,
    fixed: u64,
}

impl BufferFrame {
    /// The id of the page this frame caches.
    pub closed spec fn page_id_spec(self) -> u64 {
        self.page_id
    }

    /// The frame's bytes.
    pub closed spec fn data_seq(self) -> Seq<u8> {
        self.data@
    }

    /// The pin count: zero means evictable.
    pub closed spec fn pins_spec(self) -> u64 {
        self.fixed
    }

    /// Borrow the frame's bytes.
    pub fn get_data(&self) -> (r: &Vec<u8>)
        ensures
            r@ == self.data_seq(),
    {
        &self.data
    }

    /// Borrow the frame's bytes for writing; the id and the pin count stay.
    pub fn get_mut_data(&mut self) -> (r: &mut Vec<u8>)
        ensures
            r@ == old(self).data_seq(),
            final(self).data_seq() == final(r)@,
            final(self).page_id_spec() == old(self).page_id_spec(),
            final(self).pins_spec() == old(self).pins_spec(),
    {
        &mut self.data
    }

    /// The id of the page this frame caches.
    pub fn page_id(&self) -> (r: u64)
        ensures
            r == self.page_id_spec(),
    {
        self.page_id
    }
}

/// A pool entry: a frame plus its dirty flag. A clean entry's bytes equal the
/// page's disk bytes.
struct BufferEntry {
    frame: BufferFrame,
    dirty: bool,
}

/// The obligation a successful `fix_page` hands out; give it back through
/// `unfix_page`.
pub struct FrameHandle {
    page_id: u64,
}

impl FrameHandle {
    /// The id of the fixed page.
    pub closed spec fn page_id_spec(self) -> u64 {
        self.page_id
    }

    /// The id of the fixed page.
    pub fn page_id(&self) -> (r: u64)
        ensures
            r == self.page_id_spec(),
    {
        self.page_id
    }
}

/// Relies on rand's `RngExt::random_range` over `0..n`: it returns a value
/// within the given range, which is nonempty because `n > 0`.
#[verifier::external_body]
fn random_below(n: usize) -> (r: usize)
    requires
        n > 0,
    ensures
        r < n,
{
    rand::rng().random_range(0..n)
}

/// The buffer manager.
pub struct BufferManager {
    size: usize,
    entries: Vec<BufferEntry>,
    disk: Disk,
}

impl BufferManager {
    /// Well-formedness: the disk is well formed, pooled page ids are unique,
    /// every frame is page-sized, the pool respects its capacity, and every
    /// clean frame agrees with the disk.
    pub closed spec fn wf(self) -> bool {
        &&& self.disk.wf()
        &&& forall|i: int, j: int|
            0 <= i < j < self.entries@.len() ==> self.entries@[i].frame.page_id
                != self.entries@[j].frame.page_id
        &&& forall|i: int|
            0 <= i < self.entries@.len() ==> self.entries@[i].frame.data@.len() == PAGE_SIZE
        &&& self.entries@.len() <= self.size
        &&& forall|i: int|
            0 <= i < self.entries@.len() && !self.entries@[i].dirty
                ==> self.entries@[i].frame.data@ == self.disk.page_spec(
                self.entries@[i].frame.page_id,
            )
    }

    /// The pool's capacity.
    pub closed spec fn capacity_spec(self) -> usize {
        self.size
    }

    /// How many frames the pool holds.
    pub closed spec fn pool_count(self) -> nat {
        self.entries@.len()
    }

    /// Whether the page is resident in the pool.
    pub closed spec fn in_pool(self, pid: u64) -> bool {
        exists|i: int| 0 <= i < self.entries@.len() && self.entries@[i].frame.page_id == pid
    }

    /// The page's pin count: its frame's count while resident, zero
    /// otherwise.
    pub closed spec fn pins(self, pid: u64) -> u64 {
        if self.in_pool(pid) {
            let i = choose|i: int|
                0 <= i < self.entries@.len() && self.entries@[i].frame.page_id == pid;
            self.entries@[i].frame.fixed
        } else {
            0
        }
    }

    /// The page's current bytes: its frame's bytes while resident, its disk
    /// bytes otherwise.
    pub closed spec fn contents(self, pid: u64) -> Seq<u8> {
        if self.in_pool(pid) {
            let i = choose|i: int|
                0 <= i < self.entries@.len() && self.entries@[i].frame.page_id == pid;
            self.entries@[i].frame.data@
        } else {
            self.disk.page_spec(pid)
        }
    }

    /// Whether some pooled frame is unpinned, hence evictable.
    pub closed spec fn has_unpinned(self) -> bool {
        exists|i: int| 0 <= i < self.entries@.len() && self.entries@[i].frame.fixed == 0
    }

    /// Whether every pooled frame is unpinned, as required before shutdown.
    pub closed spec fn all_unpinned(self) -> bool {
        forall|i: int| 0 <= i < self.entries@.len() ==> self.entries@[i].frame.fixed == 0
    }

    /// `fix_page` is owed success exactly here: the page is already resident,
    /// or the pool has room, or something can be evicted.
    pub open spec fn can_fix(self, pid: u64) -> bool {
        self.in_pool(pid) || self.pool_count() < self.capacity_spec() || self.has_unpinned()
    }

    /// The pool entry at a valid index decides that page's view.
    proof fn lemma_entry_lookup(self, i: int)
        requires
            self.wf(),
            0 <= i < self.entries@.len(),
        ensures
            self.in_pool(self.entries@[i].frame.page_id),
            self.contents(self.entries@[i].frame.page_id) == self.entries@[i].frame.data@,
            self.pins(self.entries@[i].frame.page_id) == self.entries@[i].frame.fixed,
    {
        let pid = self.entries@[i].frame.page_id;
        assert(self.in_pool(pid));
        let k = choose|k: int|
            0 <= k < self.entries@.len() && self.entries@[k].frame.page_id == pid;
        if k != i {
            assert(false);
        }
    }

    /// A manager in which nothing is pinned can always fix a page: either
    /// the pool has room, or some resident frame is evictable.
    pub proof fn lemma_quiescent_can_fix(self, pid: u64)
        requires
            self.wf(),
            self.capacity_spec() >= 1,
            forall|q: u64| self.pins(q) == 0,
        ensures
            self.can_fix(pid),
    {
        if !self.in_pool(pid) && self.pool_count() >= self.capacity_spec() {
            self.lemma_entry_lookup(0);
            assert(self.pins(self.entries@[0].frame.page_id) == 0);
            assert(self.has_unpinned());
        }
    }

    /// A fresh manager over a disk: nothing pooled, nothing pinned, and every
    /// page reads as its disk bytes. Re-opening over a disk returned by
    /// `shutdown` therefore yields the same bytes for every page.
    pub fn new(size: usize, disk: Disk) -> (r: BufferManager)
        requires
            disk.wf(),
        ensures
            r.wf(),
            r.capacity_spec() == size,
            r.pool_count() == 0,
            forall|pid: u64| !r.in_pool(pid) && r.pins(pid) == 0,
            forall|pid: u64| r.contents(pid) == disk.page_spec(pid),
    {
        let m = BufferManager { size, entries: Vec::new(), disk };
        proof {
            assert(forall|pid: u64| !m.in_pool(pid));
        }
        m
    }

    /// Find the pool index of a page, if resident.
    fn find_entry(&self, pid: u64) -> (r: Option<usize>)
        ensures
            match r {
                Some(i) => i < self.entries@.len() && self.entries@[i as int].frame.page_id
                    == pid,
                None => !self.in_pool(pid),
            },
    {
        let n: usize = self.entries.len();
        let mut i: usize = 0;
        while i < n
            invariant
                i <= n,
                n == self.entries@.len(),
                forall|j: int| 0 <= j < i ==> self.entries@[j].frame.page_id != pid,
            decreases n - i,
        {
            if self.entries[i].frame.page_id == pid {
                return Some(i);
            }
            i = i + 1;
        }
        None
    }

    /// Frame rule for replacing the entry at `at` (same page id, same disk):
    /// every other page keeps its membership, bytes and pins.
    proof fn lemma_update_frame(self, pre: BufferManager, at: int, pid: u64)
        requires
            self.wf(),
            pre.wf(),
            self.disk == pre.disk,
            self.entries@.len() == pre.entries@.len(),
            0 <= at < pre.entries@.len(),
            pre.entries@[at].frame.page_id == pid,
            self.entries@[at].frame.page_id == pid,
            forall|i: int|
                0 <= i < pre.entries@.len() && i != at ==> self.entries@[i] == pre.entries@[i],
        ensures
            forall|q: u64| q != pid ==> self.in_pool(q) == pre.in_pool(q),
            forall|q: u64| q != pid ==> self.contents(q) == pre.contents(q),
            forall|q: u64| q != pid ==> self.pins(q) == pre.pins(q),
            self.in_pool(pid),
            self.contents(pid) == self.entries@[at].frame.data@,
            self.pins(pid) == self.entries@[at].frame.fixed,
    {
        self.lemma_entry_lookup(at);
        assert forall|q: u64| q != pid implies self.in_pool(q) == pre.in_pool(q) && self.contents(
            q,
        ) == pre.contents(q) && self.pins(q) == pre.pins(q) by {
            if pre.in_pool(q) {
                let i = choose|i: int|
                    0 <= i < pre.entries@.len() && pre.entries@[i].frame.page_id == q;
                assert(i != at);
                assert(self.entries@[i].frame.page_id == q);
                self.lemma_entry_lookup(i);
                pre.lemma_entry_lookup(i);
            } else if self.in_pool(q) {
                let i = choose|i: int|
                    0 <= i < self.entries@.len() && self.entries@[i].frame.page_id == q;
                assert(i != at);
                assert(pre.entries@[i].frame.page_id == q);
                assert(false);
            }
        }
    }

    /// Frame rule for appending an entry for an absent page (same disk):
    /// every other page keeps its membership, bytes and pins.
    proof fn lemma_push_frame(self, pre: BufferManager, pid: u64)
        requires
            self.wf(),
            pre.wf(),
            self.disk == pre.disk,
            !pre.in_pool(pid),
            self.entries@.len() == pre.entries@.len() + 1,
            self.entries@[pre.entries@.len() as int].frame.page_id == pid,
            forall|i: int| 0 <= i < pre.entries@.len() ==> self.entries@[i] == pre.entries@[i],
        ensures
            forall|q: u64| q != pid ==> self.in_pool(q) == pre.in_pool(q),
            forall|q: u64| q != pid ==> self.contents(q) == pre.contents(q),
            forall|q: u64| q != pid ==> self.pins(q) == pre.pins(q),
            self.in_pool(pid),
            self.contents(pid) == self.entries@[pre.entries@.len() as int].frame.data@,
            self.pins(pid) == self.entries@[pre.entries@.len() as int].frame.fixed,
    {
        let n = pre.entries@.len() as int;
        self.lemma_entry_lookup(n);
        assert forall|q: u64| q != pid implies self.in_pool(q) == pre.in_pool(q) && self.contents(
            q,
        ) == pre.contents(q) && self.pins(q) == pre.pins(q) by {
            if pre.in_pool(q) {
                let i = choose|i: int|
                    0 <= i < pre.entries@.len() && pre.entries@[i].frame.page_id == q;
                assert(self.entries@[i].frame.page_id == q);
                self.lemma_entry_lookup(i);
                pre.lemma_entry_lookup(i);
            } else if self.in_pool(q) {
                let i = choose|i: int|
                    0 <= i < self.entries@.len() && self.entries@[i].frame.page_id == q;
                assert(i != n);
                assert(pre.entries@[i].frame.page_id == q);
                assert(false);
            }
        }
    }

    /// Frame rule for removing the entry at `at`, with the disk changed at
    /// that page only: every other page keeps its membership, bytes and pins,
    /// and the removed page leaves the pool unpinned.
    proof fn lemma_remove_frame(self, pre: BufferManager, at: int, pid: u64)
        requires
            self.wf(),
            pre.wf(),
            0 <= at < pre.entries@.len(),
            pre.entries@[at].frame.page_id == pid,
            self.entries@ == pre.entries@.remove(at),
            forall|q: u64| q != pid ==> self.disk.page_spec(q) == pre.disk.page_spec(q),
        ensures
            forall|q: u64| q != pid ==> self.in_pool(q) == pre.in_pool(q),
            forall|q: u64| q != pid ==> self.contents(q) == pre.contents(q),
            forall|q: u64| q != pid ==> self.pins(q) == pre.pins(q),
            !self.in_pool(pid),
            self.pins(pid) == 0,
            self.contents(pid) == self.disk.page_spec(pid),
    {
        assert(self.entries@.len() == pre.entries@.len() - 1);
        assert forall|j: int| 0 <= j < self.entries@.len() implies self.entries@[j] == (
        if j < at {
            pre.entries@[j]
        } else {
            pre.entries@[j + 1]
        }) by {}
        if self.in_pool(pid) {
            let i = choose|i: int|
                0 <= i < self.entries@.len() && self.entries@[i].frame.page_id == pid;
            if i < at {
                assert(pre.entries@[i].frame.page_id == pid);
                assert(false);
            } else {
                assert(pre.entries@[i + 1].frame.page_id == pid);
                assert(false);
            }
        }
        assert forall|q: u64| q != pid implies self.in_pool(q) == pre.in_pool(q) && self.contents(
            q,
        ) == pre.contents(q) && self.pins(q) == pre.pins(q) by {
            if pre.in_pool(q) {
                let i = choose|i: int|
                    0 <= i < pre.entries@.len() && pre.entries@[i].frame.page_id == q;
                assert(i != at);
                if i < at {
                    assert(self.entries@[i].frame.page_id == q);
                    self.lemma_entry_lookup(i);
                } else {
                    assert(self.entries@[i - 1].frame.page_id == q);
                    self.lemma_entry_lookup(i - 1);
                }
                pre.lemma_entry_lookup(i);
            } else {
                if self.in_pool(q) {
                    let i = choose|i: int|
                        0 <= i < self.entries@.len() && self.entries@[i].frame.page_id == q;
                    if i < at {
                        assert(pre.entries@[i].frame.page_id == q);
                    } else {
                        assert(pre.entries@[i + 1].frame.page_id == q);
                    }
                    assert(false);
                }
            }
        }
    }

    /// Evict one randomly chosen unpinned frame, writing it back first if
    /// dirty. Returns false, changing nothing, when every frame is pinned.
    /// The contents of every page are preserved.
    fn evict_page(&mut self) -> (r: bool)
        requires
            old(self).wf(),
        ensures
            final(self).wf(),
            final(self).capacity_spec() == old(self).capacity_spec(),
            forall|q: u64| final(self).contents(q) == old(self).contents(q),
            forall|q: u64| final(self).pins(q) == old(self).pins(q),
            forall|q: u64| final(self).in_pool(q) ==> old(self).in_pool(q),
            r ==> final(self).pool_count() == old(self).pool_count() - 1 && old(
                self,
            ).has_unpinned(),
            !r ==> *final(self) == *old(self) && !old(self).has_unpinned(),
    {
        let n: usize = self.entries.len();
        let mut cands: Vec<usize> = Vec::new();
        let mut i: usize = 0;
        while i < n
            invariant
                i <= n,
                n == self.entries@.len(),
                forall|j: int|
                    0 <= j < cands@.len() ==> cands@[j] < n && self.entries@[cands@[j] as int].frame.fixed == 0,
                cands@.len() == 0 ==> forall|j: int|
                    0 <= j < i ==> self.entries@[j].frame.fixed != 0,
            decreases n - i,
        {
            if self.entries[i].frame.fixed == 0 {
                cands.push(i);
            }
            i = i + 1;
        }
        if cands.len() == 0 {
            proof {
                if self.has_unpinned() {
                    let j = choose|j: int|
                        0 <= j < self.entries@.len() && self.entries@[j].frame.fixed == 0;
                    assert(false);
                }
            }
            return false;
        }
        let k: usize = random_below(cands.len());
        let at: usize = cands[k];
        let ghost pre = *self;
        proof {
            assert(pre.entries@[at as int].frame.fixed == 0);
            assert(pre.has_unpinned());
        }
        let entry: BufferEntry = self.entries.remove(at);
        let ghost pid = entry.frame.page_id;
        proof {
            pre.lemma_entry_lookup(at as int);
        }
        if entry.dirty {
            self.disk.write_page(entry.frame.page_id, entry.frame.data);
        }
        proof {
            assert(self.wf()) by {
                assert forall|i2: int, j2: int|
                    0 <= i2 < j2 < self.entries@.len() implies self.entries@[i2].frame.page_id
                    != self.entries@[j2].frame.page_id by {
                    assert(self.entries@ == pre.entries@.remove(at as int));
                }
                assert forall|i2: int|
                    0 <= i2 < self.entries@.len() && !self.entries@[i2].dirty implies self.entries@[i2].frame.data@
                    == self.disk.page_spec(self.entries@[i2].frame.page_id) by {
                    let j2: int = if i2 < at { i2 } else { i2 + 1 };
                    assert(self.entries@[i2] == pre.entries@[j2]);
                    assert(pre.entries@[j2].frame.page_id != pid);
                }
            }
            self.lemma_remove_frame(pre, at as int, pid);
            assert(self.contents(pid) == pre.contents(pid)) by {
                assert(self.disk.page_spec(pid) == pre.entries@[at as int].frame.data@);
            }
            assert(pre.pins(pid) == 0);
            assert forall|q: u64| self.in_pool(q) implies pre.in_pool(q) by {
                if q != pid {
                    assert(self.in_pool(q) == pre.in_pool(q));
                }
            }
        }
        true
    }

    /// Load an absent page into the pool, evicting if full. Returns false,
    /// changing nothing, exactly when the pool is full and wholly pinned.
    fn load_page(&mut self, page_id: u64) -> (r: bool)
        requires
            old(self).wf(),
            !old(self).in_pool(page_id),
        ensures
            final(self).wf(),
            final(self).capacity_spec() == old(self).capacity_spec(),
            forall|q: u64| final(self).contents(q) == old(self).contents(q),
            forall|q: u64| final(self).pins(q) == old(self).pins(q),
            r ==> final(self).in_pool(page_id),
            r ==> old(self).pool_count() < old(self).capacity_spec() || old(
                self,
            ).has_unpinned(),
            !r ==> *final(self) == *old(self) && old(self).pool_count() == old(
                self,
            ).capacity_spec() && !old(self).has_unpinned(),
    {
        if self.entries.len() == self.size {
            let evicted: bool = self.evict_page();
            if !evicted {
                return false;
            }
        }
        let ghost pre = *self;
        let data: Vec<u8> = self.disk.read_page(page_id);
        let frame = BufferFrame { page_id, data, fixed: 0 };
        let entry = BufferEntry { frame, dirty: false };
        proof {
            if pre.in_pool(page_id) {
                assert(false);
            }
        }
        self.entries.push(entry);
        proof {
            assert forall|i: int, j: int|
                0 <= i < j < self.entries@.len() implies self.entries@[i].frame.page_id
                != self.entries@[j].frame.page_id by {
                if j == self.entries@.len() - 1 {
                    pre.lemma_entry_lookup(i);
                }
            }
            assert(self.wf());
            self.lemma_push_frame(pre, page_id);
        }
        true
    }

    /// Pin a page's frame, loading the page if absent. `None`, changing
    /// nothing, exactly when the page is absent, the pool is full, and every
    /// frame is pinned; otherwise the handle's page is resident with one more
    /// pin, and the contents and pins of every other page are untouched.
    pub fn fix_page(&mut self, page_id: u64) -> (r: Option<FrameHandle>)
        requires
            old(self).wf(),
            old(self).pins(page_id) < 0xffff_ffff_ffff_ffffu64,
        ensures
            final(self).wf(),
            final(self).capacity_spec() == old(self).capacity_spec(),
            forall|q: u64| final(self).contents(q) == old(self).contents(q),
            match r {
                Some(h) => {
                    &&& h.page_id_spec() == page_id
                    &&& old(self).can_fix(page_id)
                    &&& final(self).in_pool(page_id)
                    &&& final(self).pins(page_id) == old(self).pins(page_id) + 1
                    &&& forall|q: u64| q != page_id ==> final(self).pins(q) == old(self).pins(q)
                },
                None => {
                    &&& *final(self) == *old(self)
                    &&& !old(self).can_fix(page_id)
                },
            },
    {
        let found: Option<usize> = self.find_entry(page_id);
        let at: usize = match found {
            Some(i) => {
                proof {
                    assert(old(self).in_pool(page_id));
                }
                i
            },
            None => {
                let loaded: bool = self.load_page(page_id);
                if !loaded {
                    return None;
                }
                proof {
                    assert(old(self).can_fix(page_id));
                }
                match self.find_entry(page_id) {
                    Some(i) => i,
                    None => {
                        proof {
                            assert(false);
                        }
                        return None;
                    },
                }
            },
        };
        let ghost pre = *self;
        proof {
            pre.lemma_entry_lookup(at as int);
        }
        let e: &mut BufferEntry = &mut self.entries[at];
        e.frame.fixed = e.frame.fixed + 1;
        proof {
            assert(self.entries@ =~= pre.entries@.update(
                at as int,
                self.entries@[at as int],
            ));
            assert(self.wf()) by {
                assert forall|i2: int|
                    0 <= i2 < self.entries@.len() && !self.entries@[i2].dirty implies self.entries@[i2].frame.data@
                    == self.disk.page_spec(self.entries@[i2].frame.page_id) by {
                    assert(pre.entries@[i2].dirty == self.entries@[i2].dirty);
                }
            }
            self.lemma_update_frame(pre, at as int, page_id);
        }
        Some(FrameHandle { page_id })
    }

    /// Unpin a fixed page, recording whether its frame was written. The
    /// contents of every page are untouched; only the page's pin count drops.
    pub fn unfix_page(&mut self, handle: FrameHandle, is_dirty: bool)
        requires
            old(self).wf(),
            old(self).in_pool(handle.page_id_spec()),
            old(self).pins(handle.page_id_spec()) >= 1,
        ensures
            final(self).wf(),
            final(self).capacity_spec() == old(self).capacity_spec(),
            forall|q: u64| final(self).contents(q) == old(self).contents(q),
            forall|q: u64| final(self).in_pool(q) == old(self).in_pool(q),
            final(self).pins(handle.page_id_spec()) == old(self).pins(handle.page_id_spec())
                - 1,
            forall|q: u64|
                q != handle.page_id_spec() ==> final(self).pins(q) == old(self).pins(q),
    {
        let page_id: u64 = handle.page_id();
        let found: Option<usize> = self.find_entry(page_id);
        let at: usize = match found {
            Some(i) => i,
            None => {
                proof {
                    assert(false);
                }
                return ;
            },
        };
        let ghost pre = *self;
        proof {
            pre.lemma_entry_lookup(at as int);
        }
        let e: &mut BufferEntry = &mut self.entries[at];
        e.frame.fixed = e.frame.fixed - 1;
        if is_dirty {
            e.dirty = true;
        }
        proof {
            assert(self.entries@ =~= pre.entries@.update(
                at as int,
                self.entries@[at as int],
            ));
            assert(self.wf()) by {
                assert forall|i2: int|
                    0 <= i2 < self.entries@.len() && !self.entries@[i2].dirty implies self.entries@[i2].frame.data@
                    == self.disk.page_spec(self.entries@[i2].frame.page_id) by {
                    if i2 == at {
                        assert(!pre.entries@[i2].dirty);
                    } else {
                        assert(pre.entries@[i2].dirty == self.entries@[i2].dirty);
                    }
                }
            }
            self.lemma_update_frame(pre, at as int, page_id);
            assert forall|q: u64| self.in_pool(q) == pre.in_pool(q) by {
                if q == page_id {
                    assert(self.in_pool(q));
                    assert(pre.in_pool(q));
                }
            }
        }
    }

    /// Borrow the current bytes of a fixed page.
    pub fn read_fixed(&self, handle: &FrameHandle) -> (r: &Vec<u8>)
        requires
            self.wf(),
            self.in_pool(handle.page_id_spec()),
            self.pins(handle.page_id_spec()) >= 1,
        ensures
            r@ == self.contents(handle.page_id_spec()),
            r@.len() == PAGE_SIZE,
    {
        let page_id: u64 = handle.page_id();
        match self.find_entry(page_id) {
            Some(i) => {
                proof {
                    self.lemma_entry_lookup(i as int);
                }
                &self.entries[i].frame.data
            },
            None => {
                proof {
                    assert(false);
                }
                &self.entries[0].frame.data
            },
        }
    }

    /// Borrow the frame of a fixed page: its id, bytes and pin count.
    pub fn fixed_frame(&self, handle: &FrameHandle) -> (r: &BufferFrame)
        requires
            self.wf(),
            self.in_pool(handle.page_id_spec()),
            self.pins(handle.page_id_spec()) >= 1,
        ensures
            r.page_id_spec() == handle.page_id_spec(),
            r.data_seq() == self.contents(handle.page_id_spec()),
            r.pins_spec() == self.pins(handle.page_id_spec()),
    {
        let page_id: u64 = handle.page_id();
        match self.find_entry(page_id) {
            Some(i) => {
                proof {
                    self.lemma_entry_lookup(i as int);
                }
                &self.entries[i].frame
            },
            None => {
                proof {
                    assert(false);
                }
                vstd::pervasive::unreached()
            },
        }
    }

    /// Replace the bytes of a fixed page, marking its frame dirty. Only that
    /// page's contents change; membership and pins are untouched.
    pub fn write_fixed(&mut self, handle: &FrameHandle, data: Vec<u8>)
        requires
            old(self).wf(),
            old(self).in_pool(handle.page_id_spec()),
            old(self).pins(handle.page_id_spec()) >= 1,
            data@.len() == PAGE_SIZE,
        ensures
            final(self).wf(),
            final(self).capacity_spec() == old(self).capacity_spec(),
            final(self).contents(handle.page_id_spec()) == data@,
            forall|q: u64|
                q != handle.page_id_spec() ==> final(self).contents(q) == old(self).contents(q),
            forall|q: u64| final(self).in_pool(q) == old(self).in_pool(q),
            forall|q: u64| final(self).pins(q) == old(self).pins(q),
    {
        let page_id: u64 = handle.page_id();
        let found: Option<usize> = self.find_entry(page_id);
        let at: usize = match found {
            Some(i) => i,
            None => {
                proof {
                    assert(false);
                }
                return ;
            },
        };
        let ghost pre = *self;
        proof {
            pre.lemma_entry_lookup(at as int);
        }
        let e: &mut BufferEntry = &mut self.entries[at];
        e.frame.data = data;
        e.dirty = true;
        proof {
            assert(self.entries@ =~= pre.entries@.update(
                at as int,
                self.entries@[at as int],
            ));
            assert(self.wf()) by {
                assert forall|i2: int|
                    0 <= i2 < self.entries@.len() && !self.entries@[i2].dirty implies self.entries@[i2].frame.data@
                    == self.disk.page_spec(self.entries@[i2].frame.page_id) by {
                    assert(i2 != at);
                    assert(pre.entries@[i2].dirty == self.entries@[i2].dirty);
                }
            }
            self.lemma_update_frame(pre, at as int, page_id);
            assert forall|q: u64| self.in_pool(q) == pre.in_pool(q) by {
                if q == page_id {
                    assert(self.in_pool(q));
                    assert(pre.in_pool(q));
                }
            }
            assert forall|q: u64| self.pins(q) == pre.pins(q) by {
                if q == page_id {
                    assert(self.pins(q) == pre.pins(q));
                }
            }
        }
    }

    /// Flush every dirty frame and hand back the disk: it then holds the
    /// current contents of every page, so a manager re-opened over it reads
    /// the same bytes everywhere.
    pub fn shutdown(self) -> (r: Disk)
        requires
            self.wf(),
            self.all_unpinned(),
        ensures
            r.wf(),
            forall|pid: u64| r.page_spec(pid) == self.contents(pid),
    {
        let ghost orig = self;
        let BufferManager { size, entries, mut disk } = self;
        let n: usize = entries.len();
        let mut i: usize = 0;
        while i < n
            invariant
                i <= n,
                n == entries@.len(),
                orig.wf(),
                disk.wf(),
                entries@ == orig.entries@,
                forall|j1: int, j2: int|
                    0 <= j1 < j2 < entries@.len() ==> entries@[j1].frame.page_id
                        != entries@[j2].frame.page_id,
                forall|j: int|
                    0 <= j < i ==> disk.page_spec(entries@[j].frame.page_id)
                        == entries@[j].frame.data@,
                forall|q: u64|
                    (forall|j: int| 0 <= j < i ==> entries@[j].frame.page_id != q)
                        ==> disk.page_spec(q) == orig.disk.page_spec(q),
            decreases n - i,
        {
            let dirty: bool = entries[i].dirty;
            if dirty {
                let pid: u64 = entries[i].frame.page_id;
                let data: Vec<u8> = crate::codec::read_bytes_at(
                    &entries[i].frame.data,
                    0,
                    crate::page::PAGE_SIZE,
                );
                proof {
                    assert(data@ =~= entries@[i as int].frame.data@);
                }
                disk.write_page(pid, data);
            } else {
                proof {
                    assert(entries@[i as int].frame.data@ == orig.disk.page_spec(
                        entries@[i as int].frame.page_id,
                    ));
                    assert(forall|j: int|
                        0 <= j < i ==> entries@[j].frame.page_id
                            != entries@[i as int].frame.page_id);
                }
            }
            i = i + 1;
        }
        proof {
            assert forall|pid: u64| disk.page_spec(pid) == orig.contents(pid) by {
                if orig.in_pool(pid) {
                    let j = choose|j: int|
                        0 <= j < orig.entries@.len() && orig.entries@[j].frame.page_id == pid;
                    orig.lemma_entry_lookup(j);
                } else {
                    assert(forall|j: int|
                        0 <= j < entries@.len() ==> entries@[j].frame.page_id != pid);
                }
            }
        }
        disk
    }
}

} // verus!
