//! An in-memory disk image: the durable state a buffer manager reads pages
//! from and flushes pages to.
//!
//! A disk maps page ids to page-sized byte blocks. A page never written reads
//! as zeros, mirroring segment files whose missing regions are zero-filled.
//! Turning this image into real segment files, and back, is plain I/O and is
//! left to the surrounding program.

use crate::codec::{read_bytes_at, spec_zeros};
use crate::page::PAGE_SIZE;
use vstd::prelude::*;

verus! {

/// One explicitly stored page.
pub struct DiskPage {
    pub page_id: u64,
    pub data: Vec<u8>,
}

/// The disk image.
pub struct Disk {
    pages: Vec<DiskPage>,
}

impl Disk {
    /// Stored page ids are unique and every stored page is page-sized.
    pub closed spec fn wf(self) -> bool {
        &&& forall|i: int, j: int|
            0 <= i < j < self.pages@.len() ==> self.pages@[i].page_id != self.pages@[j].page_id
        &&& forall|i: int| 0 <= i < self.pages@.len() ==> self.pages@[i].data@.len() == PAGE_SIZE
    }

    /// Whether the disk stores `pid` explicitly.
    pub closed spec fn has_page(self, pid: u64) -> bool {
        exists|i: int| 0 <= i < self.pages@.len() && self.pages@[i].page_id == pid
    }

    /// The bytes of page `pid`: its stored block, or zeros if never written.
    pub closed spec fn page_spec(self, pid: u64) -> Seq<u8> {
        if self.has_page(pid) {
            let i = choose|i: int| 0 <= i < self.pages@.len() && self.pages@[i].page_id == pid;
            self.pages@[i].data@
        } else {
            spec_zeros(PAGE_SIZE as int)
        }
    }

    /// A fresh disk: every page reads as zeros.
    pub fn new() -> (r: Disk)
        ensures
            r.wf(),
            forall|pid: u64| r.page_spec(pid) == spec_zeros(PAGE_SIZE as int),
    {
        let d = Disk { pages: Vec::new() };
        proof {
            assert(forall|pid: u64| !d.has_page(pid));
        }
        d
    }

    /// If a stored entry carries `pid`, the page view is that entry's bytes.
    proof fn lemma_entry_is_page(self, i: int)
        requires
            self.wf(),
            0 <= i < self.pages@.len(),
        ensures
            self.has_page(self.pages@[i].page_id),
            self.page_spec(self.pages@[i].page_id) == self.pages@[i].data@,
    {
        let pid = self.pages@[i].page_id;
        assert(self.has_page(pid));
        let k = choose|k: int| 0 <= k < self.pages@.len() && self.pages@[k].page_id == pid;
        if k != i {
            assert(false);
        }
    }

    /// Find the index storing `pid`, if any.
    fn find(&self, pid: u64) -> (r: Option<usize>)
        ensures
            match r {
                Some(i) => i < self.pages@.len() && self.pages@[i as int].page_id == pid,
                None => !self.has_page(pid),
            },
    {
        let n: usize = self.pages.len();
        let mut i: usize = 0;
        while i < n
            invariant
                i <= n,
                n == self.pages@.len(),
                forall|j: int| 0 <= j < i ==> self.pages@[j].page_id != pid,
            decreases n - i,
        {
            if self.pages[i].page_id == pid {
                return Some(i);
            }
            i = i + 1;
        }
        None
    }

    /// Read a page: a copy of its stored bytes, or a zero block.
    pub fn read_page(&self, pid: u64) -> (r: Vec<u8>)
        requires
            self.wf(),
        ensures
            r@ == self.page_spec(pid),
            r@.len() == PAGE_SIZE,
    {
        match self.find(pid) {
            Some(i) => {
                proof {
                    self.lemma_entry_is_page(i as int);
                }
                let data: &Vec<u8> = &self.pages[i].data;
                read_bytes_at(data, 0, PAGE_SIZE)
            },
            None => {
                let z = crate::codec::zeros(PAGE_SIZE);
                z
            },
        }
    }

    /// Write a page block, replacing or creating its stored entry; every
    /// other page keeps its bytes.
    pub fn write_page(&mut self, pid: u64, data: Vec<u8>)
        requires
            old(self).wf(),
            data@.len() == PAGE_SIZE,
        ensures
            final(self).wf(),
            final(self).page_spec(pid) == data@,
            forall|q: u64| q != pid ==> final(self).page_spec(q) == old(self).page_spec(q),
    {
        let ghost pre = *self;
        match self.find(pid) {
            Some(i) => {
                self.pages.set(i, DiskPage { page_id: pid, data });
                proof {
                    assert(self.wf());
                    self.lemma_entry_is_page(i as int);
                    assert forall|q: u64| q != pid implies self.page_spec(q) == pre.page_spec(
                        q,
                    ) by {
                        self.lemma_same_entries(pre, q, i as int, pid);
                    }
                }
            },
            None => {
                self.pages.push(DiskPage { page_id: pid, data });
                proof {
                    let n = pre.pages@.len() as int;
                    assert(self.wf());
                    self.lemma_entry_is_page(n);
                    assert forall|q: u64| q != pid implies self.page_spec(q) == pre.page_spec(
                        q,
                    ) by {
                        self.lemma_same_entries(pre, q, n, pid);
                    }
                }
            },
        }
    }

    /// Two disks that store `q` in the same entries, except one index that
    /// carries some other page id in both, give `q` the same bytes.
    proof fn lemma_same_entries(self, other: Disk, q: u64, at: int, pid: u64)
        requires
            self.wf(),
            other.wf(),
            q != pid,
            0 <= at < self.pages@.len(),
            self.pages@[at].page_id == pid,
            self.pages@.len() == other.pages@.len() || (self.pages@.len() == other.pages@.len()
                + 1 && at == other.pages@.len()),
            forall|i: int|
                0 <= i < other.pages@.len() && i != at ==> self.pages@[i] == other.pages@[i],
            at < other.pages@.len() ==> other.pages@[at].page_id == pid,
        ensures
            self.page_spec(q) == other.page_spec(q),
    {
        if self.has_page(q) {
            let i = choose|i: int| 0 <= i < self.pages@.len() && self.pages@[i].page_id == q;
            assert(i != at);
            assert(i < other.pages@.len());
            assert(other.has_page(q));
            other.lemma_entry_is_page(i);
            self.lemma_entry_is_page(i);
        } else {
            if other.has_page(q) {
                let i = choose|i: int|
                    0 <= i < other.pages@.len() && other.pages@[i].page_id == q;
                assert(i != at);
                assert(self.pages@[i].page_id == q);
                assert(false);
            }
        }
    }

    /// The page ids this disk stores explicitly, for a surrounding program
    /// that persists the image; the id at each index is the stored entry's.
    pub fn stored_page_ids(&self) -> (r: Vec<u64>)
        ensures
            r@.len() == self.page_count(),
            forall|i: int| 0 <= i < r@.len() ==> self.has_page(r@[i]),
    {
        let n: usize = self.pages.len();
        let mut ids: Vec<u64> = Vec::new();
        let mut i: usize = 0;
        while i < n
            invariant
                i <= n,
                n == self.pages@.len(),
                ids@.len() == i,
                forall|j: int| 0 <= j < i ==> ids@[j] == self.pages@[j].page_id,
            decreases n - i,
        {
            ids.push(self.pages[i].page_id);
            i = i + 1;
        }
        proof {
            assert forall|j: int| 0 <= j < ids@.len() implies self.has_page(ids@[j]) by {
                assert(self.pages@[j].page_id == ids@[j]);
            }
        }
        ids
    }

    /// How many pages the disk stores explicitly.
    pub closed spec fn page_count(self) -> nat {
        self.pages@.len()
    }
}

} // verus!
