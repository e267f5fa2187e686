//! B-tree index tests.

use cabinet::btree::BTree;
use cabinet::buffer::BufferManager;
use cabinet::disk::Disk;
use cabinet::tid::TID;

#[test]
fn simple_insert() {
    let manager = BufferManager::new(1024, Disk::new());
    let mut bt = BTree::new(23, manager);
    let some_tid = TID::new(0, 0);
    bt.insert(42, some_tid);
    let res = bt.lookup(42).unwrap();
    assert_eq!(some_tid, res);
}

#[test]
fn lookup_nonexisting() {
    let manager = BufferManager::new(1024, Disk::new());
    let mut bt = BTree::new(23, manager);
    let result = bt.lookup(42);
    assert_eq!(result, None);
}

#[test]
fn leaf_split_keeps_all_keys() {
    // Insert a high key first, then a run that forces leaf splits on both
    // sides of the separator; every inserted key stays visible.
    let manager = BufferManager::new(1024, Disk::new());
    let mut bt = BTree::new(23, manager);
    let some_tid = TID::new(23, 42);
    assert!(bt.insert(301, some_tid));
    for i in 1..260u64 {
        assert!(bt.insert(i, some_tid));
        let res = bt.lookup(i);
        assert_eq!(res, Some(some_tid), "key {} vanished", i);
    }
    for i in 1..260u64 {
        assert_eq!(bt.lookup(i), Some(some_tid));
    }
    assert_eq!(bt.lookup(301), Some(some_tid));
}

#[test]
fn distinct_keys_all_found() {
    // Order-independent: lookups see every distinct key's own TID.
    let manager = BufferManager::new(1024, Disk::new());
    let mut bt = BTree::new(9, manager);
    for i in 0..500u64 {
        let key = (i * 7919) % 100000 + 1;
        let tid = TID::new(i, (i % 100) as usize);
        assert!(bt.insert(key, tid));
    }
    for i in 0..500u64 {
        let key = (i * 7919) % 100000 + 1;
        let tid = TID::new(i, (i % 100) as usize);
        assert_eq!(bt.lookup(key), Some(tid));
    }
}

#[test]
fn erase_removes_only_its_key() {
    let manager = BufferManager::new(1024, Disk::new());
    let mut bt = BTree::new(23, manager);
    let t1 = TID::new(1, 1);
    let t2 = TID::new(2, 2);
    assert!(bt.insert(42, t1));
    assert!(bt.insert(43, t2));
    bt.erase(42);
    assert_eq!(bt.lookup(42), None);
    assert_eq!(bt.lookup(43), Some(t2));
}

#[test]
fn reinsert_updates_value() {
    let manager = BufferManager::new(1024, Disk::new());
    let mut bt = BTree::new(23, manager);
    assert!(bt.insert(42, TID::new(1, 1)));
    assert!(bt.insert(42, TID::new(2, 2)));
    assert_eq!(bt.lookup(42), Some(TID::new(2, 2)));
}
