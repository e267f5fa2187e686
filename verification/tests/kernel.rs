//! Storage-kernel tests: buffer manager, slotted pages, segments, TIDs.

use cabinet::buffer::BufferManager;
use cabinet::codec::{read_word_at, zeros};
use cabinet::disk::Disk;
use cabinet::page::{join_segment, split_segment, PAGE_SIZE};
use cabinet::segment::{Record, SPSegment};
use cabinet::slotted::{LookupResult, SlottedPage, HEADER_SIZE, SLOT_SIZE};
use cabinet::tid::{Slot, TID};
use rand::RngExt;

#[test]
fn main() {}

#[test]
fn test_create() {
    let mut bm = BufferManager::new(16, Disk::new());
    let pageref = match bm.fix_page(42) {
        Some(p) => p,
        None => panic!("Getting page failed"),
    };
    let mut data = bm.read_fixed(&pageref).clone();
    data[0] = 42;
    bm.write_fixed(&pageref, data);
    bm.unfix_page(pageref, true);
}

#[test]
fn page_id_round_trip() {
    let id = join_segment(7, 1234);
    let (seg, off) = split_segment(id);
    assert_eq!(seg, 7);
    assert_eq!(off, 1234);
}

#[test]
fn tid_round_trip() {
    let tid = TID::new(5, 7);
    assert_eq!(tid.page_id(), 5);
    assert_eq!(tid.slot_id(), 7);
    let slot = Slot::new_from_tid(tid);
    assert!(slot.is_tid());
    assert_eq!(slot.as_tid(), tid);
}

#[test]
fn slot_direct_round_trip() {
    let slot = Slot::new_from_offset_len(4086, 10);
    assert!(!slot.is_tid());
    assert_eq!(slot.offset(), 4086);
    assert_eq!(slot.len(), 10);
    assert!(!Slot::new_from_offset_len(4086, 10).is_empty());
    assert!(Slot::empty().is_empty());
}

#[test]
fn slotted_page_space_accounting() {
    // A fresh page balances; each insert keeps the balance.
    let mut sp = SlottedPage::new(zeros(PAGE_SIZE));
    let h0 = sp.read_header();
    assert_eq!(
        h0.free_space + h0.slot_count * SLOT_SIZE as u64 + (PAGE_SIZE as u64 - h0.data_start)
            + HEADER_SIZE as u64,
        PAGE_SIZE as u64
    );
    let (ok, slot_id) = sp.try_insert(&vec![1, 2, 3]);
    assert!(ok);
    assert_eq!(slot_id, 0);
    let h1 = sp.read_header();
    assert_eq!(
        h1.free_space + h1.slot_count * SLOT_SIZE as u64 + (PAGE_SIZE as u64 - h1.data_start)
            + HEADER_SIZE as u64,
        PAGE_SIZE as u64
    );
    match sp.lookup(0) {
        LookupResult::Direct(v) => assert_eq!(v, vec![1, 2, 3]),
        LookupResult::Indirect(_) => panic!("expected a direct record"),
    }
    // Removal credits the slot word's space back, keeping the balance.
    sp.remove(0);
    let h2 = sp.read_header();
    assert_eq!(h2.slot_count, 0);
    assert_eq!(
        h2.free_space + h2.slot_count * SLOT_SIZE as u64 + (PAGE_SIZE as u64 - h2.data_start)
            + HEADER_SIZE as u64,
        PAGE_SIZE as u64
    );
}

#[test]
fn slotted_page_create() {
    let manager = BufferManager::new(1024, Disk::new());
    let mut seg = SPSegment::new(1, manager);

    let rec = Record::new(vec![42]);
    let tid = seg.insert(&rec).unwrap();

    let slot = Slot::new_from_tid(tid);
    assert!(slot.is_tid());
    let reconstructed_tid = slot.as_tid();
    assert_eq!(tid, reconstructed_tid);

    let rec2 = seg.lookup(tid);
    assert_eq!(rec, rec2);

    let rec3 = Record::new(vec![23, 42]);
    seg.update(tid, &rec3);
    let rec4 = seg.lookup(tid);
    assert_eq!(rec3, rec4);

    let rec5 = Record::new(vec![1, 2, 3]);
    seg.update(tid, &rec5);
    let rec6 = seg.lookup(tid);
    assert_eq!(rec5, rec6);

    seg.remove(tid);
}

#[test]
fn records_keep_their_bytes() {
    // Inserting more records leaves earlier ones untouched, and removal of
    // one record leaves the others addressable.
    let manager = BufferManager::new(64, Disk::new());
    let mut seg = SPSegment::new(3, manager);
    let r1 = Record::new(vec![10; 100]);
    let r2 = Record::new(vec![20; 200]);
    let r3 = Record::new(vec![30; 300]);
    let t1 = seg.insert(&r1).unwrap();
    let t2 = seg.insert(&r2).unwrap();
    let t3 = seg.insert(&r3).unwrap();
    assert_eq!(seg.lookup(t1), r1);
    assert_eq!(seg.lookup(t2), r2);
    assert_eq!(seg.lookup(t3), r3);
    assert!(seg.remove(t2));
    assert_eq!(seg.lookup(t1), r1);
    assert_eq!(seg.lookup(t3), r3);
}

#[test]
fn forwarding_insert_update_lookup() {
    // A 10-byte record updated to a 4000-byte record keeps its TID; the old
    // slot decodes as a forwarding slot with the high 16 bits set.
    let manager = BufferManager::new(64, Disk::new());
    let mut seg = SPSegment::new(1, manager);
    let small = Record::new(vec![7; 10]);
    let t1 = seg.insert(&small).unwrap();
    let big = Record::new(vec![9; 4000]);
    assert!(seg.update(t1, &big));
    assert_eq!(seg.lookup(t1), big);

    let page = t1.page_id();
    let slot_id = t1.slot_id();
    let mut manager = seg.into_manager();
    let pid = join_segment(1, page);
    let h = manager.fix_page(pid).unwrap();
    let bytes = manager.read_fixed(&h).clone();
    manager.unfix_page(h, false);
    let word = read_word_at(&bytes, HEADER_SIZE + SLOT_SIZE * slot_id);
    let slot = Slot::new(word);
    assert!(slot.is_tid());
    assert_eq!(word >> 48, 0xffff);
}

#[test]
fn cascade_remove() {
    // Removing a forwarded TID also removes the forwarding target.
    let manager = BufferManager::new(64, Disk::new());
    let mut seg = SPSegment::new(1, manager);
    let small = Record::new(vec![7; 10]);
    let t1 = seg.insert(&small).unwrap();
    let big = Record::new(vec![9; 4000]);
    assert!(seg.update(t1, &big));
    assert!(seg.remove(t1));
    // The original slot and the forwarding target are both gone: the page's
    // slots of t1 decode as empty.
    let page = t1.page_id();
    let slot_id = t1.slot_id();
    let mut manager = seg.into_manager();
    let pid = join_segment(1, page);
    let h = manager.fix_page(pid).unwrap();
    let bytes = manager.read_fixed(&h).clone();
    manager.unfix_page(h, false);
    let word = read_word_at(&bytes, HEADER_SIZE + SLOT_SIZE * slot_id);
    assert!(Slot::new(word).is_empty());
}

#[test]
fn eviction_preserves_contents() {
    // Pool of one frame: writing page 0, then fixing page 1, evicts page 0;
    // re-fixing page 0 yields the bytes written before eviction.
    let mut bm = BufferManager::new(1, Disk::new());
    let h = bm.fix_page(0).unwrap();
    let mut data = bm.read_fixed(&h).clone();
    data[0] = 99;
    bm.write_fixed(&h, data);
    bm.unfix_page(h, true);

    let h1 = bm.fix_page(1).unwrap();
    bm.unfix_page(h1, false);

    let h0 = bm.fix_page(0).unwrap();
    assert_eq!(bm.read_fixed(&h0)[0], 99);
    bm.unfix_page(h0, false);
}

#[test]
fn reopen_preserves_contents() {
    // Re-opening a manager after clean shutdown yields the same bytes.
    let mut bm = BufferManager::new(4, Disk::new());
    for i in 0..8u64 {
        let h = bm.fix_page(i).unwrap();
        let mut data = bm.read_fixed(&h).clone();
        data[0] = i as u8 + 1;
        bm.write_fixed(&h, data);
        bm.unfix_page(h, true);
    }
    let disk = bm.shutdown();
    let mut bm2 = BufferManager::new(4, disk);
    for i in 0..8u64 {
        let h = bm2.fix_page(i).unwrap();
        assert_eq!(bm2.read_fixed(&h)[0], i as u8 + 1);
        bm2.unfix_page(h, false);
    }
}

#[test]
fn counter_fan_in() {
    // Many increments at random pages; after shutdown and reopen the sum of
    // the first bytes equals the number of increments.
    let pages: u64 = 20;
    let writers: usize = 30;
    let mut bm = BufferManager::new(4, Disk::new());
    for i in 0..pages {
        let h = bm.fix_page(i).unwrap();
        let mut data = bm.read_fixed(&h).clone();
        data[0] = 0;
        bm.write_fixed(&h, data);
        bm.unfix_page(h, true);
    }
    for _ in 0..writers {
        let page: u64 = rand::rng().random_range(0..pages);
        let h = bm.fix_page(page).unwrap();
        let mut data = bm.read_fixed(&h).clone();
        data[0] += 1;
        bm.write_fixed(&h, data);
        bm.unfix_page(h, true);
    }
    let disk = bm.shutdown();
    let mut bm2 = BufferManager::new(4, disk);
    let mut total: usize = 0;
    for i in 0..pages {
        let h = bm2.fix_page(i).unwrap();
        total += bm2.read_fixed(&h)[0] as usize;
        bm2.unfix_page(h, false);
    }
    assert_eq!(total, writers);
}

#[test]
fn eviction_under_pressure() {
    // Pool of one frame over 20 pages, 100 random fix-mutate-unfix cycles;
    // after shutdown the per-page counts match what the test recorded.
    let pages: u64 = 20;
    let mut counts = vec![0u8; pages as usize];
    let mut bm = BufferManager::new(1, Disk::new());
    for _ in 0..100 {
        let page: u64 = rand::rng().random_range(0..pages);
        let h = bm.fix_page(page).unwrap();
        let mut data = bm.read_fixed(&h).clone();
        data[0] += 1;
        bm.write_fixed(&h, data);
        bm.unfix_page(h, true);
        counts[page as usize] += 1;
    }
    let disk = bm.shutdown();
    let mut bm2 = BufferManager::new(1, disk);
    for i in 0..pages {
        let h = bm2.fix_page(i).unwrap();
        assert_eq!(bm2.read_fixed(&h)[0], counts[i as usize]);
        bm2.unfix_page(h, false);
    }
}

#[test]
fn frame_access() {
    let mut bm = BufferManager::new(2, Disk::new());
    let h = bm.fix_page(7).unwrap();
    let mut data = bm.read_fixed(&h).clone();
    data[0] = 5;
    bm.write_fixed(&h, data);
    let frame = bm.fixed_frame(&h);
    assert_eq!(frame.page_id(), 7);
    assert_eq!(frame.get_data()[0], 5);
    bm.unfix_page(h, true);
}

#[test]
fn pool_exhausted() {
    // Fixing a second page while the single frame stays pinned is refused;
    // after unpinning it succeeds.
    let mut bm = BufferManager::new(1, Disk::new());
    let h = bm.fix_page(0).unwrap();
    assert!(bm.fix_page(1).is_none());
    bm.unfix_page(h, false);
    assert!(bm.fix_page(1).is_some());
}
