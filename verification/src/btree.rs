//! The B-tree index: an ordered map from 64-bit keys to TIDs, stored on the
//! pages of one segment.
//!
//! A node page carries a kind tag in its first byte (`0xff` leaf, `0x00`
//! branch) and a dense array of fixed-size entries: `(key, TID)` on leaves,
//! `(key, child page)` on branches, both as little-endian 64-bit words. The
//! zero key marks an empty entry, so zero keys cannot be inserted; a
//! zero-filled page reads as an empty branch. Pages are allocated
//! monotonically and never reclaimed. Splits move the lower half of a full
//! node to a fresh page; the separator is the highest key that moved,
//! inclusive for the new node, and a root split installs a fresh branch root
//! over the two halves.

use crate::buffer::{BufferManager, FrameHandle};
use crate::codec::{read_bytes_at, read_word_at, spec_word_at, spec_zeros, write_word_at, zeros};
use crate::page::{join_segment, PAGE_SIZE, SEGMENT_PAGES};
use crate::tid::{TID, TID_LIMIT};
use vstd::pervasive::VecAdditionalExecFns;
use vstd::prelude::*;

verus! {

/// Tag byte of a leaf node.
pub const LEAF_MARKER: u8 = 0xff;

/// Tag byte of a branch node.
pub const BRANCH_MARKER: u8 = 0;

/// Byte offset of the first entry.
pub const ENTRY_START: usize = 16;

/// Bytes per entry: a key word and a value word.
pub const ENTRY_SIZE: usize = 16;

/// Entries per node: `(PAGE_SIZE - ENTRY_SIZE) / ENTRY_SIZE`.
pub const NODE_ENTRIES: usize = 255;

/// Descents give up beyond this depth; a well-formed tree over one segment
/// is always far shallower.
pub const DEPTH_LIMIT: u64 = 64;

/// The key word of entry `i`.
pub open spec fn entry_key(s: Seq<u8>, i: int) -> u64 {
    spec_word_at(s, ENTRY_START + ENTRY_SIZE * i)
}

/// The value word of entry `i`: a packed TID on a leaf, a child page offset
/// on a branch.
pub open spec fn entry_val(s: Seq<u8>, i: int) -> u64 {
    spec_word_at(s, ENTRY_START + ENTRY_SIZE * i + 8)
}

/// Whether the page is a leaf node.
pub open spec fn node_is_leaf(s: Seq<u8>) -> bool {
    s[0] == LEAF_MARKER
}

/// Whether the page carries a node tag at all.
pub open spec fn node_tag_ok(s: Seq<u8>) -> bool {
    s[0] == LEAF_MARKER || s[0] == BRANCH_MARKER
}

/// How many leading entries of the key column are in use: the used prefix
/// ends at the first zero key.
pub open spec fn used_count(keys: Seq<u64>) -> int
    decreases keys.len(),
{
    if keys.len() == 0 {
        0
    } else if keys[0] == 0 {
        0
    } else {
        1 + used_count(keys.drop_first())
    }
}

/// Well-formedness of a node's decoded columns: full width, keys strictly
/// sorted in the used prefix, zero entries after it.
pub open spec fn node_vecs_wf(keys: Seq<u64>, vals: Seq<u64>) -> bool {
    let n = used_count(keys);
    &&& keys.len() == NODE_ENTRIES
    &&& vals.len() == NODE_ENTRIES
    &&& forall|i: int, j: int| 0 <= i < j < n ==> keys[i] < keys[j]
    &&& forall|i: int| n <= i < NODE_ENTRIES ==> keys[i] == 0 && vals[i] == 0
}

/// The key column of a node page.
pub open spec fn keys_of(s: Seq<u8>) -> Seq<u64> {
    Seq::new(NODE_ENTRIES as nat, |i: int| entry_key(s, i))
}

/// The value column of a node page.
pub open spec fn vals_of(s: Seq<u8>) -> Seq<u64> {
    Seq::new(NODE_ENTRIES as nat, |i: int| entry_val(s, i))
}

/// Well-formedness of a node page's bytes: a known tag, well-formed
/// columns, and TID-sized values on leaves.
pub open spec fn wf_node_page(s: Seq<u8>) -> bool {
    &&& s.len() == PAGE_SIZE
    &&& node_tag_ok(s)
    &&& node_vecs_wf(keys_of(s), vals_of(s))
    &&& node_is_leaf(s) ==> forall|i: int|
        0 <= i < NODE_ENTRIES ==> entry_val(s, i) < TID_LIMIT
}

/// Whether a leaf page stores the pair `(key, val)`.
pub open spec fn leaf_has(s: Seq<u8>, key: u64, val: u64) -> bool {
    &&& node_is_leaf(s)
    &&& key != 0
    &&& exists|i: int|
        0 <= i < NODE_ENTRIES && entry_key(s, i) == key && entry_val(s, i) == val
}

/// What a leaf holds for a key: the value of its entry with that key, if
/// one exists.
pub open spec fn leaf_lookup_spec(s: Seq<u8>, key: u64) -> Option<u64> {
    if exists|i: int| 0 <= i < NODE_ENTRIES && entry_key(s, i) == key {
        let i = choose|i: int| 0 <= i < NODE_ENTRIES && entry_key(s, i) == key;
        Some(entry_val(s, i))
    } else {
        None
    }
}

/// The child a branch sends a key to: the value of the first used entry
/// whose key is at least `key`, if any.
pub open spec fn branch_child_spec(s: Seq<u8>, key: u64) -> Option<u64> {
    if exists|i: int|
        0 <= i < NODE_ENTRIES && entry_key(s, i) != 0 && key <= entry_key(s, i) {
        let i = choose|i: int|
            0 <= i < NODE_ENTRIES && entry_key(s, i) != 0 && key <= entry_key(s, i) && forall|
                j: int,
            |
                0 <= j < i ==> !(entry_key(s, j) != 0 && key <= entry_key(s, j));
        Some(entry_val(s, i))
    } else {
        None
    }
}

/// Whether a branch page's used entries all point at allocated pages: every
/// pair with a nonzero key carries a child page offset in `[1, bound)`.
/// Leaves are unconstrained.
pub open spec fn branch_children_ok(s: Seq<u8>, bound: u64) -> bool {
    node_is_leaf(s) || forall|k: u64, v: u64|
        k != 0 && #[trigger] vec_has(keys_of(s), vals_of(s), k, v) ==> 1 <= v < bound
}

/// A larger allocation bound keeps a branch page's children in range.
proof fn lemma_children_ok_monotone(s: Seq<u8>, b1: u64, b2: u64)
    requires
        branch_children_ok(s, b1),
        b1 <= b2,
    ensures
        branch_children_ok(s, b2),
{
}

/// A zero-filled page is a well-formed empty branch node.
pub proof fn lemma_zero_node_page_wf()
    ensures
        wf_node_page(spec_zeros(PAGE_SIZE as int)),
        !node_is_leaf(spec_zeros(PAGE_SIZE as int)),
        used_count(keys_of(spec_zeros(PAGE_SIZE as int))) == 0,
{
    let s = spec_zeros(PAGE_SIZE as int);
    assert forall|i: int| 0 <= i < NODE_ENTRIES implies entry_key(s, i) == 0 && entry_val(
        s,
        i,
    ) == 0 by {
        crate::codec::lemma_word_at_zeros(PAGE_SIZE as int, ENTRY_START + ENTRY_SIZE * i);
        crate::codec::lemma_word_at_zeros(PAGE_SIZE as int, ENTRY_START + ENTRY_SIZE * i + 8);
    }
    assert(keys_of(s)[0] == 0);
}

/// A zero-filled page has no used entries, so its children are in range for
/// any bound.
proof fn lemma_zero_branch_children(bound: u64)
    ensures
        branch_children_ok(crate::codec::spec_zeros(PAGE_SIZE as int), bound),
{
    let s = crate::codec::spec_zeros(PAGE_SIZE as int);
    lemma_zero_node_page_wf();
    assert forall|k: u64, v: u64|
        k != 0 && #[trigger] vec_has(keys_of(s), vals_of(s), k, v) implies 1 <= v < bound by {
        let i = choose|i: int| 0 <= i < keys_of(s).len() && keys_of(s)[i] == k && vals_of(s)[i] == v;
        assert(keys_of(s)[i] == 0);
    }
}

/// Read the entry columns out of a node page.
fn read_node(bytes: &Vec<u8>) -> (r: (Vec<u64>, Vec<u64>))
    requires
        bytes@.len() == PAGE_SIZE,
    ensures
        r.0@ == keys_of(bytes@),
        r.1@ == vals_of(bytes@),
{
    let mut keys: Vec<u64> = Vec::new();
    let mut vals: Vec<u64> = Vec::new();
    let mut i: usize = 0;
    while i < NODE_ENTRIES
        invariant
            i <= NODE_ENTRIES,
            bytes@.len() == PAGE_SIZE,
            keys@.len() == i,
            vals@.len() == i,
            forall|j: int| 0 <= j < i ==> keys@[j] == entry_key(bytes@, j),
            forall|j: int| 0 <= j < i ==> vals@[j] == entry_val(bytes@, j),
        decreases NODE_ENTRIES - i,
    {
        keys.push(read_word_at(bytes, ENTRY_START + ENTRY_SIZE * i));
        vals.push(read_word_at(bytes, ENTRY_START + ENTRY_SIZE * i + 8));
        i = i + 1;
    }
    proof {
        assert(keys@ =~= keys_of(bytes@));
        assert(vals@ =~= vals_of(bytes@));
    }
    (keys, vals)
}

/// Build a node page from its tag and entry columns; bytes outside the tag
/// and the entries are zero.
fn write_node(leaf: bool, keys: &Vec<u64>, vals: &Vec<u64>) -> (r: Vec<u8>)
    requires
        keys@.len() == NODE_ENTRIES,
        vals@.len() == NODE_ENTRIES,
    ensures
        r@.len() == PAGE_SIZE,
        node_is_leaf(r@) == leaf,
        node_tag_ok(r@),
        keys_of(r@) == keys@,
        vals_of(r@) == vals@,
{
    let mut page: Vec<u8> = zeros(PAGE_SIZE);
    if leaf {
        page.set(0, LEAF_MARKER);
    }
    let mut i: usize = 0;
    while i < NODE_ENTRIES
        invariant
            i <= NODE_ENTRIES,
            page@.len() == PAGE_SIZE,
            keys@.len() == NODE_ENTRIES,
            vals@.len() == NODE_ENTRIES,
            page@[0] == if leaf {
                LEAF_MARKER
            } else {
                BRANCH_MARKER
            },
            forall|j: int| 0 <= j < i ==> entry_key(page@, j) == keys@[j],
            forall|j: int| 0 <= j < i ==> entry_val(page@, j) == vals@[j],
        decreases NODE_ENTRIES - i,
    {
        let ghost s0 = page@;
        write_word_at(&mut page, ENTRY_START + ENTRY_SIZE * i, keys[i]);
        let ghost s1 = page@;
        write_word_at(&mut page, ENTRY_START + ENTRY_SIZE * i + 8, vals[i]);
        proof {
            crate::codec::lemma_word_at_frame(s1, page@, ENTRY_START + ENTRY_SIZE * (i as int));
            assert forall|j: int| 0 <= j < i implies entry_key(page@, j) == keys@[j]
                && entry_val(page@, j) == vals@[j] by {
                crate::codec::lemma_word_at_frame(s0, s1, ENTRY_START + ENTRY_SIZE * j);
                crate::codec::lemma_word_at_frame(s1, page@, ENTRY_START + ENTRY_SIZE * j);
                crate::codec::lemma_word_at_frame(s0, s1, ENTRY_START + ENTRY_SIZE * j + 8);
                crate::codec::lemma_word_at_frame(s1, page@, ENTRY_START + ENTRY_SIZE * j + 8);
            }
        }
        i = i + 1;
    }
    proof {
        assert(keys_of(page@) =~= keys@);
        assert(vals_of(page@) =~= vals@);
    }
    page
}

/// The used prefix of the key column, at run time.
fn used_count_exec(keys: &Vec<u64>) -> (n: usize)
    requires
        keys@.len() == NODE_ENTRIES,
    ensures
        n == used_count(keys@),
        n <= NODE_ENTRIES,
{
    let mut i: usize = 0;
    while i < NODE_ENTRIES
        invariant
            i <= NODE_ENTRIES,
            keys@.len() == NODE_ENTRIES,
            forall|j: int| 0 <= j < i ==> keys@[j] != 0,
        decreases NODE_ENTRIES - i,
    {
        if keys[i] == 0 {
            proof {
                lemma_used_count_from(keys@, i as int);
            }
            return i;
        }
        i = i + 1;
    }
    proof {
        lemma_used_count_from(keys@, NODE_ENTRIES as int);
    }
    NODE_ENTRIES
}

/// The used count never exceeds the column's width.
proof fn lemma_used_count_bound(keys: Seq<u64>)
    ensures
        0 <= used_count(keys) <= keys.len(),
    decreases keys.len(),
{
    if keys.len() > 0 && keys[0] != 0 {
        lemma_used_count_bound(keys.drop_first());
    }
}

/// The used count is the position of the first zero key.
proof fn lemma_used_count_from(keys: Seq<u64>, i: int)
    requires
        0 <= i <= keys.len(),
        forall|j: int| 0 <= j < i ==> keys[j] != 0,
        i < keys.len() ==> keys[i] == 0,
    ensures
        used_count(keys) == i,
    decreases i,
{
    if i == 0 {
    } else {
        lemma_used_count_from(keys.drop_first(), i - 1);
    }
}

/// The used count only looks at the key column's values.
proof fn lemma_used_count_eq(k1: Seq<u64>, k2: Seq<u64>)
    requires
        k1.len() == k2.len(),
        forall|i: int| 0 <= i < k1.len() ==> k1[i] == k2[i],
    ensures
        used_count(k1) == used_count(k2),
{
    assert(k1 =~= k2);
}


/// Whether the columns hold the pair `(k, v)` at some index.
pub open spec fn vec_has(keys: Seq<u64>, vals: Seq<u64>, k: u64, v: u64) -> bool {
    exists|i: int| 0 <= i < keys.len() && keys[i] == k && vals[i] == v
}

/// Copy a word column.
fn copy_words(v: &Vec<u64>) -> (r: Vec<u64>)
    ensures
        r@ == v@,
{
    let n: usize = v.len();
    let mut r: Vec<u64> = Vec::new();
    let mut i: usize = 0;
    while i < n
        invariant
            i <= n,
            n == v@.len(),
            r@ == v@.subrange(0, i as int),
        decreases n - i,
    {
        r.push(v[i]);
        proof {
            assert(r@ =~= v@.subrange(0, i + 1));
        }
        i = i + 1;
    }
    proof {
        assert(r@ =~= v@);
    }
    r
}

/// Insert or overwrite a pair in sorted node columns. The result holds
/// `(key, val)`, holds any other key's pairs exactly as before, and holds no
/// other value for `key`.
#[verifier::loop_isolation(false)]
fn insert_pair(keys: &Vec<u64>, vals: &Vec<u64>, key: u64, val: u64) -> (r: (Vec<u64>, Vec<u64>))
    requires
        node_vecs_wf(keys@, vals@),
        key != 0,
        used_count(keys@) < NODE_ENTRIES || vec_has(keys@, vals@, key, val) || (exists|i: int|
            0 <= i < keys@.len() && keys@[i] == key),
    ensures
        node_vecs_wf(r.0@, r.1@),
        vec_has(r.0@, r.1@, key, val),
        forall|k2: u64, v2: u64|
            k2 != key && k2 != 0 ==> vec_has(keys@, vals@, k2, v2) == vec_has(
                r.0@,
                r.1@,
                k2,
                v2,
            ),
        forall|v2: u64| vec_has(r.0@, r.1@, key, v2) ==> v2 == val,
        used_count(r.0@) == used_count(keys@) || used_count(r.0@) == used_count(keys@) + 1,
        forall|i: int|
            0 <= i < NODE_ENTRIES ==> r.1@[i] == val || (exists|j: int|
                0 <= j < NODE_ENTRIES && r.1@[i] == vals@[j]),
    {
    let n: usize = used_count_exec(keys);
    let ghost nn = n as int;
    // Look for an entry with this key.
    let mut i: usize = 0;
    while i < n
        invariant
            i <= n,
            n == used_count(keys@),
            n <= NODE_ENTRIES,
            keys@.len() == NODE_ENTRIES,
            vals@.len() == NODE_ENTRIES,
            forall|j: int| 0 <= j < i ==> keys@[j] != key,
        decreases n - i,
    {
        if keys[i] == key {
            let nk: Vec<u64> = copy_words(keys);
            let mut nv: Vec<u64> = copy_words(vals);
            nv.set(i, val);
            proof {
                lemma_used_count_eq(nk@, keys@);
                assert(node_vecs_wf(nk@, nv@)) by {
                    assert forall|j: int|
                        used_count(nk@) <= j < NODE_ENTRIES implies nk@[j] == 0 && nv@[j]
                        == 0 by {
                        assert(keys@[j] == 0 && vals@[j] == 0);
                        assert(i < used_count(keys@));
                    }
                }
                assert(vec_has(nk@, nv@, key, val));
                assert forall|k2: u64, v2: u64| k2 != key && k2 != 0 implies vec_has(
                    keys@,
                    vals@,
                    k2,
                    v2,
                ) == vec_has(nk@, nv@, k2, v2) by {
                    if vec_has(keys@, vals@, k2, v2) {
                        let j = choose|j: int|
                            0 <= j < keys@.len() && keys@[j] == k2 && vals@[j] == v2;
                        assert(j != i);
                        assert(nk@[j] == k2 && nv@[j] == v2);
                    }
                    if vec_has(nk@, nv@, k2, v2) {
                        let j = choose|j: int|
                            0 <= j < nk@.len() && nk@[j] == k2 && nv@[j] == v2;
                        assert(j != i);
                        assert(keys@[j] == k2 && vals@[j] == v2);
                    }
                }
                assert forall|v2: u64| vec_has(nk@, nv@, key, v2) implies v2 == val by {
                    let j = choose|j: int|
                        0 <= j < nk@.len() && nk@[j] == key && nv@[j] == v2;
                    lemma_sorted_unique(keys@, vals@, j, i as int);
                }
                assert forall|t: int| 0 <= t < NODE_ENTRIES implies nv@[t] == val || (exists|
                    j: int,
                |
                    0 <= j < NODE_ENTRIES && nv@[t] == vals@[j]) by {
                    if t != i {
                        assert(nv@[t] == vals@[t]);
                    }
                }
            }
            return (nk, nv);
        }
        i = i + 1;
    }
    // No entry with this key: find the insertion position.
    let mut pos: usize = 0;
    while pos < n && keys[pos] < key
        invariant
            pos <= n,
            n == used_count(keys@),
            n <= NODE_ENTRIES,
            keys@.len() == NODE_ENTRIES,
            forall|j: int| 0 <= j < pos ==> keys@[j] < key,
        decreases n - pos,
    {
        pos = pos + 1;
    }
    proof {
        assert(n < NODE_ENTRIES) by {
            if n == NODE_ENTRIES {
                if vec_has(keys@, vals@, key, val) {
                    let j = choose|j: int|
                        0 <= j < keys@.len() && keys@[j] == key && vals@[j] == val;
                    assert(false);
                }
                if exists|j: int| 0 <= j < keys@.len() && keys@[j] == key {
                    let j = choose|j: int| 0 <= j < keys@.len() && keys@[j] == key;
                    assert(false);
                }
            }
        }
        assert(pos < n ==> key < keys@[pos as int]) by {
            if pos < n {
                assert(keys@[pos as int] != key);
            }
        }
    }
    let mut nk: Vec<u64> = Vec::new();
    let mut nv: Vec<u64> = Vec::new();
    let mut j: usize = 0;
    while j < NODE_ENTRIES
        invariant
            j <= NODE_ENTRIES,
            nk@.len() == j,
            nv@.len() == j,
            keys@.len() == NODE_ENTRIES,
            vals@.len() == NODE_ENTRIES,
            pos <= n,
            n < NODE_ENTRIES,
            n == used_count(keys@),
            forall|t: int|
                0 <= t < j ==> nk@[t] == (if t < pos {
                    keys@[t]
                } else if t == pos {
                    key
                } else {
                    keys@[t - 1]
                }),
            forall|t: int|
                0 <= t < j ==> nv@[t] == (if t < pos {
                    vals@[t]
                } else if t == pos {
                    val
                } else {
                    vals@[t - 1]
                }),
        decreases NODE_ENTRIES - j,
    {
        if j < pos {
            nk.push(keys[j]);
            nv.push(vals[j]);
        } else if j == pos {
            nk.push(key);
            nv.push(val);
        } else {
            nk.push(keys[j - 1]);
            nv.push(vals[j - 1]);
        }
        j = j + 1;
    }
    proof {
        let ks = keys@;
        let vs = vals@;
        let pp = pos as int;
        assert forall|t: int| 0 <= t < nn + 1 implies nk@[t] != 0 by {
            if t < pp {
            } else if t == pp {
            } else {
                assert(ks[t - 1] != 0);
            }
        }
        assert(nn + 1 < NODE_ENTRIES ==> nk@[nn + 1] == ks[nn] && ks[nn] == 0);
        lemma_used_count_from(nk@, nn + 1);
        assert(node_vecs_wf(nk@, nv@)) by {
            assert forall|a: int, b: int| 0 <= a < b < nn + 1 implies nk@[a] < nk@[b] by {
                if b < pp {
                } else if b == pp {
                    assert(nk@[a] == ks[a] && ks[a] < key);
                } else if a == pp {
                    assert(nk@[b] == ks[b - 1]);
                    assert(pp < n ==> key < ks[pp]);
                    assert(pp <= b - 1 < n);
                    if pp < b - 1 {
                        assert(ks[pp] < ks[b - 1]);
                    }
                } else if a < pp {
                    assert(nk@[a] == ks[a] && nk@[b] == ks[b - 1]);
                    assert(a < b - 1 ==> ks[a] < ks[b - 1]);
                    assert(a == b - 1 ==> a < pp && pp <= a && false);
                } else {
                    assert(nk@[a] == ks[a - 1] && nk@[b] == ks[b - 1]);
                }
            }
            assert forall|t: int| nn + 1 <= t < NODE_ENTRIES implies nk@[t] == 0 && nv@[t]
                == 0 by {
                assert(nk@[t] == ks[t - 1] && nv@[t] == vs[t - 1]);
                assert(nn <= t - 1);
            }
        }
        assert(vec_has(nk@, nv@, key, val)) by {
            assert(nk@[pp] == key && nv@[pp] == val);
        }
        assert forall|k2: u64, v2: u64| k2 != key && k2 != 0 implies vec_has(ks, vs, k2, v2)
            == vec_has(nk@, nv@, k2, v2) by {
            if vec_has(ks, vs, k2, v2) {
                let t = choose|t: int| 0 <= t < ks.len() && ks[t] == k2 && vs[t] == v2;
                assert(t < nn) by {
                    if t >= nn {
                        assert(ks[t] == 0);
                    }
                }
                if t < pp {
                    assert(nk@[t] == k2 && nv@[t] == v2);
                } else {
                    assert(nk@[t + 1] == k2 && nv@[t + 1] == v2);
                }
            }
            if vec_has(nk@, nv@, k2, v2) {
                let t = choose|t: int| 0 <= t < nk@.len() && nk@[t] == k2 && nv@[t] == v2;
                if t < pp {
                    assert(ks[t] == k2 && vs[t] == v2);
                } else if t == pp {
                    assert(false);
                } else {
                    assert(ks[t - 1] == k2 && vs[t - 1] == v2);
                }
            }
        }
        assert forall|v2: u64| vec_has(nk@, nv@, key, v2) implies v2 == val by {
            let t = choose|t: int| 0 <= t < nk@.len() && nk@[t] == key && nv@[t] == v2;
            if t < pp {
                assert(ks[t] == key);
                assert(false);
            } else if t > pp {
                assert(ks[t - 1] == key);
                assert(false);
            }
        }
        assert forall|t: int| 0 <= t < NODE_ENTRIES implies nv@[t] == val || (exists|j: int|
            0 <= j < NODE_ENTRIES && nv@[t] == vs[j]) by {
            if t < pp {
                assert(nv@[t] == vs[t]);
            } else if t > pp {
                assert(nv@[t] == vs[t - 1]);
            }
        }
    }
    (nk, nv)
}

/// Two indices of well-formed columns carrying the same nonzero key are the
/// same index.
proof fn lemma_sorted_unique(keys: Seq<u64>, vals: Seq<u64>, i: int, j: int)
    requires
        node_vecs_wf(keys, vals),
        0 <= i < keys.len(),
        0 <= j < keys.len(),
        keys[i] == keys[j],
        keys[i] != 0,
    ensures
        i == j,
{
    let n = used_count(keys);
    assert(i < n && j < n) by {
        if i >= n {
            assert(keys[i] == 0);
        }
        if j >= n {
            assert(keys[j] == 0);
        }
    }
    if i < j {
        assert(keys[i] < keys[j]);
    }
    if j < i {
        assert(keys[j] < keys[i]);
    }
}

/// Split full columns: the lower half moves out and the upper half shifts
/// to the front. The separator is the highest key that moved, inclusive for
/// the new lower node: every lower pair's key is at most the separator,
/// every upper pair's key is above it. Descents route keys at or below a
/// branch key to its child, so the convention is consistent with lookup.
#[verifier::loop_isolation(false)]
fn split_columns(keys: &Vec<u64>, vals: &Vec<u64>) -> (r: (Vec<u64>, Vec<u64>, Vec<u64>, Vec<u64>, u64))
    requires
        node_vecs_wf(keys@, vals@),
        used_count(keys@) == NODE_ENTRIES,
    ensures
        node_vecs_wf(r.0@, r.1@),
        node_vecs_wf(r.2@, r.3@),
        r.4 == keys@[126],
        r.4 != 0,
        used_count(r.0@) == 127,
        used_count(r.2@) == 128,
        forall|k: u64, v: u64|
            k != 0 ==> vec_has(keys@, vals@, k, v) == (vec_has(r.0@, r.1@, k, v) || vec_has(
                r.2@,
                r.3@,
                k,
                v,
            )),
        forall|k: u64, v: u64| vec_has(r.0@, r.1@, k, v) && k != 0 ==> k <= r.4,
        forall|k: u64, v: u64| vec_has(r.2@, r.3@, k, v) && k != 0 ==> k > r.4,
        r.4 < 0xffff_ffff_ffff_ffffu64,
        forall|i: int|
            0 <= i < NODE_ENTRIES ==> r.1@[i] == 0 || (exists|j: int|
                0 <= j < NODE_ENTRIES && r.1@[i] == vals@[j]),
        forall|i: int|
            0 <= i < NODE_ENTRIES ==> r.3@[i] == 0 || (exists|j: int|
                0 <= j < NODE_ENTRIES && r.3@[i] == vals@[j]),
    {
    let sep: u64 = keys[126];
    let mut lk: Vec<u64> = Vec::new();
    let mut lv: Vec<u64> = Vec::new();
    let mut hk: Vec<u64> = Vec::new();
    let mut hv: Vec<u64> = Vec::new();
    let mut j: usize = 0;
    while j < NODE_ENTRIES
        invariant
            j <= NODE_ENTRIES,
            lk@.len() == j,
            lv@.len() == j,
            hk@.len() == j,
            hv@.len() == j,
            keys@.len() == NODE_ENTRIES,
            vals@.len() == NODE_ENTRIES,
            forall|t: int|
                0 <= t < j ==> lk@[t] == (if t < 127 {
                    keys@[t]
                } else {
                    0u64
                }) && lv@[t] == (if t < 127 {
                    vals@[t]
                } else {
                    0u64
                }),
            forall|t: int|
                0 <= t < j ==> hk@[t] == (if t < 128 {
                    keys@[t + 127]
                } else {
                    0u64
                }) && hv@[t] == (if t < 128 {
                    vals@[t + 127]
                } else {
                    0u64
                }),
        decreases NODE_ENTRIES - j,
    {
        if j < 127 {
            lk.push(keys[j]);
            lv.push(vals[j]);
        } else {
            lk.push(0);
            lv.push(0);
        }
        if j < 128 {
            hk.push(keys[j + 127]);
            hv.push(vals[j + 127]);
        } else {
            hk.push(0);
            hv.push(0);
        }
        j = j + 1;
    }
    proof {
        let ks = keys@;
        let vs = vals@;
        assert forall|t: int| 0 <= t < 127 implies lk@[t] != 0 by {
            assert(ks[t] != 0);
        }
        lemma_used_count_from(lk@, 127);
        assert forall|t: int| 0 <= t < 128 implies hk@[t] != 0 by {
            assert(ks[t + 127] != 0);
        }
        lemma_used_count_from(hk@, 128);
        assert(node_vecs_wf(lk@, lv@));
        assert(node_vecs_wf(hk@, hv@));
        assert forall|k: u64, v: u64| k != 0 implies vec_has(ks, vs, k, v) == (vec_has(
            lk@,
            lv@,
            k,
            v,
        ) || vec_has(hk@, hv@, k, v)) by {
            if vec_has(ks, vs, k, v) {
                let t = choose|t: int| 0 <= t < ks.len() && ks[t] == k && vs[t] == v;
                if t < 127 {
                    assert(lk@[t] == k && lv@[t] == v);
                } else {
                    assert(hk@[t - 127] == k && hv@[t - 127] == v);
                }
            }
            if vec_has(lk@, lv@, k, v) {
                let t = choose|t: int| 0 <= t < lk@.len() && lk@[t] == k && lv@[t] == v;
                assert(t < 127);
                assert(ks[t] == k && vs[t] == v);
            }
            if vec_has(hk@, hv@, k, v) {
                let t = choose|t: int| 0 <= t < hk@.len() && hk@[t] == k && hv@[t] == v;
                assert(t < 128);
                assert(ks[t + 127] == k && vs[t + 127] == v);
            }
        }
        assert forall|k: u64, v: u64| vec_has(lk@, lv@, k, v) && k != 0 implies k <= sep by {
            let t = choose|t: int| 0 <= t < lk@.len() && lk@[t] == k && lv@[t] == v;
            assert(t < 127);
            assert(t < 126 ==> ks[t] < ks[126]);
        }
        assert forall|k: u64, v: u64| vec_has(hk@, hv@, k, v) && k != 0 implies k > sep by {
            let t = choose|t: int| 0 <= t < hk@.len() && hk@[t] == k && hv@[t] == v;
            assert(t < 128);
            assert(ks[126] < ks[t + 127]);
        }
        assert(sep < 0xffff_ffff_ffff_ffffu64) by {
            assert(ks[126] < ks[127]);
        }
        assert forall|t: int| 0 <= t < NODE_ENTRIES implies lv@[t] == 0 || (exists|j: int|
            0 <= j < NODE_ENTRIES && lv@[t] == vs[j]) by {
            if t < 127 {
                assert(lv@[t] == vs[t]);
            }
        }
        assert forall|t: int| 0 <= t < NODE_ENTRIES implies hv@[t] == 0 || (exists|j: int|
            0 <= j < NODE_ENTRIES && hv@[t] == vs[j]) by {
            if t < 128 {
                assert(hv@[t] == vs[t + 127]);
            }
        }
    }
    (lk, lv, hk, hv, sep)
}



/// Find the entry with this key in the used prefix, if any.
#[verifier::loop_isolation(false)]
fn leaf_find(keys: &Vec<u64>, vals: &Vec<u64>, key: u64) -> (r: Option<usize>)
    requires
        node_vecs_wf(keys@, vals@),
        key != 0,
    ensures
        match r {
            Some(i) => i < NODE_ENTRIES && keys@[i as int] == key,
            None => forall|j: int| 0 <= j < NODE_ENTRIES ==> keys@[j] != key,
        },
{
    let n: usize = used_count_exec(keys);
    let mut i: usize = 0;
    while i < n
        invariant
            i <= n,
            forall|j: int| 0 <= j < i ==> keys@[j] != key,
        decreases n - i,
    {
        if keys[i] == key {
            return Some(i);
        }
        i = i + 1;
    }
    proof {
        assert forall|j: int| 0 <= j < NODE_ENTRIES implies keys@[j] != key by {
            if j >= n {
                assert(keys@[j] == 0);
            }
        }
    }
    None
}

/// Find the first used entry whose key is at least `key`, if any.
#[verifier::loop_isolation(false)]
fn branch_find(keys: &Vec<u64>, vals: &Vec<u64>, key: u64) -> (r: Option<usize>)
    requires
        node_vecs_wf(keys@, vals@),
    ensures
        match r {
            Some(i) => i < NODE_ENTRIES && keys@[i as int] != 0 && key <= keys@[i as int]
                && forall|j: int| 0 <= j < i ==> !(keys@[j] != 0 && key <= keys@[j]),
            None => forall|j: int|
                0 <= j < NODE_ENTRIES ==> !(keys@[j] != 0 && key <= keys@[j]),
        },
{
    let n: usize = used_count_exec(keys);
    let mut i: usize = 0;
    while i < n
        invariant
            i <= n,
            forall|j: int| 0 <= j < i ==> !(keys@[j] != 0 && key <= keys@[j]),
        decreases n - i,
    {
        if key <= keys[i] {
            proof {
                assert(keys@[i as int] != 0);
            }
            return Some(i);
        }
        i = i + 1;
    }
    proof {
        assert forall|j: int| 0 <= j < NODE_ENTRIES implies !(keys@[j] != 0 && key
            <= keys@[j]) by {
            if j >= n {
                assert(keys@[j] == 0);
            }
        }
    }
    None
}

/// A stored pair decides its leaf's answer: a well-formed leaf that holds
/// `(key, val)` answers a lookup of `key` with exactly `val`. Together with
/// `insert`'s guarantee that the pair it stored sits in some leaf, and with
/// `lookup`'s descent contract, this pins what a lookup finds once the
/// descent reaches that leaf.
pub proof fn lemma_stored_pair_is_leaf_answer(s: Seq<u8>, key: u64, val: u64)
    requires
        wf_node_page(s),
        leaf_has(s, key, val),
    ensures
        leaf_lookup_spec(s, key) == Some(val),
{
    let i = choose|i: int|
        0 <= i < NODE_ENTRIES && entry_key(s, i) == key && entry_val(s, i) == val;
    assert(keys_of(s)[i] == key && vals_of(s)[i] == val);
    lemma_leaf_lookup_found(s, key, i);
}

/// A found leaf entry decides the leaf's answer for its key.
proof fn lemma_leaf_lookup_found(s: Seq<u8>, key: u64, i: int)
    requires
        node_vecs_wf(keys_of(s), vals_of(s)),
        0 <= i < NODE_ENTRIES,
        entry_key(s, i) == key,
        key != 0,
    ensures
        leaf_lookup_spec(s, key) == Some(entry_val(s, i)),
{
    let j = choose|j: int| 0 <= j < NODE_ENTRIES && entry_key(s, j) == key;
    assert(keys_of(s)[j] == key && keys_of(s)[i] == key);
    lemma_sorted_unique(keys_of(s), vals_of(s), j, i);
}

/// A leaf without the key answers nothing for it.
proof fn lemma_leaf_lookup_absent(s: Seq<u8>, key: u64)
    requires
        forall|j: int| 0 <= j < NODE_ENTRIES ==> keys_of(s)[j] != key,
    ensures
        leaf_lookup_spec(s, key) == Option::<u64>::None,
{
    if exists|j: int| 0 <= j < NODE_ENTRIES && entry_key(s, j) == key {
        let j = choose|j: int| 0 <= j < NODE_ENTRIES && entry_key(s, j) == key;
        assert(keys_of(s)[j] == key);
    }
}

/// The first used entry at or above the key decides the branch's child.
proof fn lemma_branch_child_found(s: Seq<u8>, key: u64, i: int)
    requires
        0 <= i < NODE_ENTRIES,
        entry_key(s, i) != 0,
        key <= entry_key(s, i),
        forall|j: int| 0 <= j < i ==> !(keys_of(s)[j] != 0 && key <= keys_of(s)[j]),
    ensures
        branch_child_spec(s, key) == Some(entry_val(s, i)),
{
    assert(entry_key(s, i) != 0 && key <= entry_key(s, i) && forall|j: int|
        0 <= j < i ==> !(entry_key(s, j) != 0 && key <= entry_key(s, j))) by {
        assert forall|j: int| 0 <= j < i implies !(entry_key(s, j) != 0 && key <= entry_key(
            s,
            j,
        )) by {
            assert(keys_of(s)[j] == entry_key(s, j));
        }
    }
    let j = choose|j: int|
        0 <= j < NODE_ENTRIES && entry_key(s, j) != 0 && key <= entry_key(s, j) && forall|
            t: int,
        |
            0 <= t < j ==> !(entry_key(s, t) != 0 && key <= entry_key(s, t));
    if j < i {
        assert(!(entry_key(s, j) != 0 && key <= entry_key(s, j))) by {
            assert(keys_of(s)[j] == entry_key(s, j));
        }
    }
    if i < j {
        assert(!(entry_key(s, i) != 0 && key <= entry_key(s, i)));
    }
}

/// A branch with no used entry at or above the key sends it nowhere.
proof fn lemma_branch_child_absent(s: Seq<u8>, key: u64)
    requires
        forall|j: int| 0 <= j < NODE_ENTRIES ==> !(keys_of(s)[j] != 0 && key <= keys_of(s)[j]),
    ensures
        branch_child_spec(s, key) == Option::<u64>::None,
{
    if exists|j: int| 0 <= j < NODE_ENTRIES && entry_key(s, j) != 0 && key <= entry_key(s, j) {
        let j = choose|j: int|
            0 <= j < NODE_ENTRIES && entry_key(s, j) != 0 && key <= entry_key(s, j);
        assert(keys_of(s)[j] == entry_key(s, j));
    }
}

/// The B-tree: a root reference and a monotonic page allocator over one
/// segment.
pub struct BTree {
    segment: u64,
    manager: BufferManager,
    root: u64,
    next_free_page: u64,
}

impl BTree {
    /// The segment the tree lives in.
    pub closed spec fn id_spec(self) -> u64 {
        self.segment
    }

    /// The page offset of the root node.
    pub closed spec fn root_spec(self) -> u64 {
        self.root
    }

    /// The next page offset the allocator will hand out.
    pub closed spec fn next_free_spec(self) -> u64 {
        self.next_free_page
    }

    /// The current bytes of the tree page at offset `p`.
    pub closed spec fn page_of(self, p: u64) -> Seq<u8> {
        self.manager.contents(crate::segment::segment_page_pid(self.segment, p))
    }

    /// No page is pinned between operations.
    pub closed spec fn quiescent(self) -> bool {
        forall|q: u64| self.manager.pins(q) == 0
    }

    /// Well-formedness: a well-formed, quiescent manager; allocated pages
    /// are well-formed nodes; unallocated pages are still zero.
    pub closed spec fn wf(self) -> bool {
        &&& self.manager.wf()
        &&& self.segment < SEGMENT_PAGES
        &&& self.manager.capacity_spec() >= 1
        &&& self.quiescent()
        &&& 1 <= self.root < self.next_free_page
        &&& 2 <= self.next_free_page <= SEGMENT_PAGES
        &&& forall|p: u64| p < self.next_free_page ==> wf_node_page(self.page_of(p))
        &&& forall|p: u64|
            p < self.next_free_page ==> branch_children_ok(
                #[trigger] self.page_of(p),
                self.next_free_page,
            )
        &&& forall|p: u64|
            self.next_free_page <= p < SEGMENT_PAGES ==> self.page_of(p) == spec_zeros(
                PAGE_SIZE as int,
            )
    }

    /// Whether some allocated leaf stores the pair `(key, val)`.
    pub closed spec fn tree_contains(self, key: u64, val: u64) -> bool {
        exists|p: u64| p < self.next_free_spec() && leaf_has(self.page_of(p), key, val)
    }

    /// The leaf page a descent from `page` reaches for `key` within `fuel`
    /// steps, if any.
    pub closed spec fn descend_target(self, page: u64, key: u64, fuel: nat) -> Option<u64>
        decreases fuel,
    {
        if fuel == 0 || page >= SEGMENT_PAGES {
            None
        } else {
            let s = self.page_of(page);
            if node_is_leaf(s) {
                Some(page)
            } else {
                match branch_child_spec(s, key) {
                    Option::None => None,
                    Option::Some(c) => self.descend_target(c, key, (fuel - 1) as nat),
                }
            }
        }
    }

    /// Whether an insert's descent from `page` settles within `fuel` steps:
    /// it reaches a leaf, or falls off a branch none of whose separators
    /// bounds the key (where a fresh leaf is linked in).
    pub closed spec fn insert_descends(self, page: u64, key: u64, fuel: nat) -> bool
        decreases fuel,
    {
        if fuel == 0 || page >= SEGMENT_PAGES {
            false
        } else {
            let s = self.page_of(page);
            if node_is_leaf(s) {
                true
            } else {
                match branch_child_spec(s, key) {
                    Option::None => true,
                    Option::Some(c) => self.insert_descends(c, key, (fuel - 1) as nat),
                }
            }
        }
    }

    /// An insert's descent only reads pages: two states with the same pages
    /// settle alike.
    proof fn lemma_insert_descends_frame(pre: BTree, post: BTree, page: u64, key: u64, fuel: nat)
        requires
            forall|p: u64| p < SEGMENT_PAGES ==> post.page_of(p) == pre.page_of(p),
        ensures
            post.insert_descends(page, key, fuel) == pre.insert_descends(page, key, fuel),
        decreases fuel,
    {
        if fuel == 0 || page >= SEGMENT_PAGES {
        } else {
            let s = pre.page_of(page);
            if !node_is_leaf(s) {
                match branch_child_spec(s, key) {
                    Option::None => {},
                    Option::Some(c) => {
                        Self::lemma_insert_descends_frame(pre, post, c, key, (fuel - 1) as nat);
                    },
                }
            }
        }
    }

    /// What a descent from the root finds for `key`: the entry of the leaf
    /// it reaches.
    pub closed spec fn lookup_spec(self, key: u64) -> Option<u64> {
        match self.descend_target(self.root_spec(), key, DEPTH_LIMIT as nat) {
            Option::None => None,
            Option::Some(l) => leaf_lookup_spec(self.page_of(l), key),
        }
    }

    /// A descent that reaches a leaf reaches an in-range leaf page.
    proof fn lemma_target_bounds(self, page: u64, key: u64, fuel: nat)
        ensures
            match self.descend_target(page, key, fuel) {
                Option::Some(l) => l < SEGMENT_PAGES && node_is_leaf(self.page_of(l)),
                Option::None => true,
            },
        decreases fuel,
    {
        if fuel == 0 || page >= SEGMENT_PAGES {
        } else {
            let s = self.page_of(page);
            if !node_is_leaf(s) {
                match branch_child_spec(s, key) {
                    Option::None => {},
                    Option::Some(c) => {
                        self.lemma_target_bounds(c, key, (fuel - 1) as nat);
                    },
                }
            }
        }
    }

    /// A descent only reads pages: two states with the same pages descend
    /// alike.
    proof fn lemma_descend_frame(pre: BTree, post: BTree, page: u64, key: u64, fuel: nat)
        requires
            forall|p: u64| p < SEGMENT_PAGES ==> post.page_of(p) == pre.page_of(p),
        ensures
            post.descend_target(page, key, fuel) == pre.descend_target(page, key, fuel),
        decreases fuel,
    {
        if fuel == 0 || page >= SEGMENT_PAGES {
        } else {
            let s = pre.page_of(page);
            if !node_is_leaf(s) {
                match branch_child_spec(s, key) {
                    Option::None => {},
                    Option::Some(c) => {
                        Self::lemma_descend_frame(pre, post, c, key, (fuel - 1) as nat);
                    },
                }
            }
        }
    }

    /// A descent passes only through branch pages: changing one page that
    /// was and stays a leaf reroutes no descent.
    proof fn lemma_descend_leaf_change(pre: BTree, post: BTree, l: u64, page: u64, key: u64, fuel: nat)
        requires
            l < SEGMENT_PAGES,
            node_is_leaf(pre.page_of(l)),
            node_is_leaf(post.page_of(l)),
            forall|p: u64| p < SEGMENT_PAGES && p != l ==> post.page_of(p) == pre.page_of(p),
        ensures
            post.descend_target(page, key, fuel) == pre.descend_target(page, key, fuel),
        decreases fuel,
    {
        if fuel == 0 || page >= SEGMENT_PAGES {
        } else {
            if page == l {
            } else {
                let s = pre.page_of(page);
                if !node_is_leaf(s) {
                    match branch_child_spec(s, key) {
                        Option::None => {},
                        Option::Some(c) => {
                            Self::lemma_descend_leaf_change(
                                pre,
                                post,
                                l,
                                c,
                                key,
                                (fuel - 1) as nat,
                            );
                        },
                    }
                }
            }
        }
    }

    /// Open a fresh B-tree over a segment of zero-filled pages: the root is
    /// page 1, allocation starts at page 2, and no key is present.
    pub fn new(segment_id: u64, manager: BufferManager) -> (r: BTree)
        requires
            segment_id < SEGMENT_PAGES,
            manager.wf(),
            manager.capacity_spec() >= 1,
            forall|q: u64| manager.pins(q) == 0,
            forall|p: u64|
                p < SEGMENT_PAGES ==> manager.contents(
                    crate::segment::segment_page_pid(segment_id, p),
                ) == spec_zeros(PAGE_SIZE as int),
        ensures
            r.wf(),
            r.id_spec() == segment_id,
            forall|k: u64, v: u64| !r.tree_contains(k, v),
            forall|k: u64| r.lookup_spec(k) == Option::<u64>::None,
    {
        let t = BTree { segment: segment_id, manager, root: 1, next_free_page: 2 };
        proof {
            lemma_zero_node_page_wf();
            assert(t.wf()) by {
                assert forall|p: u64| p < t.next_free_page implies wf_node_page(t.page_of(p))
                    && branch_children_ok(t.page_of(p), t.next_free_page) by {
                    assert(t.page_of(p) == spec_zeros(PAGE_SIZE as int));
                    lemma_zero_branch_children(t.next_free_page);
                }
            }
            assert forall|k: u64, v: u64| !t.tree_contains(k, v) by {
                if t.tree_contains(k, v) {
                    let p = choose|p: u64| p < t.next_free_spec() && leaf_has(t.page_of(p), k, v);
                    assert(t.page_of(p) == spec_zeros(PAGE_SIZE as int));
                    assert(!node_is_leaf(spec_zeros(PAGE_SIZE as int)));
                }
            }
            assert forall|k: u64| t.lookup_spec(k) == Option::<u64>::None by {
                assert(t.page_of(1) == spec_zeros(PAGE_SIZE as int));
                assert(!node_is_leaf(t.page_of(1)));
                assert(branch_child_spec(t.page_of(1), k) == Option::<u64>::None) by {
                    if exists|i: int|
                        0 <= i < NODE_ENTRIES && entry_key(t.page_of(1), i) != 0 && k
                            <= entry_key(t.page_of(1), i) {
                        let i = choose|i: int|
                            0 <= i < NODE_ENTRIES && entry_key(t.page_of(1), i) != 0 && k
                                <= entry_key(t.page_of(1), i);
                        assert(keys_of(t.page_of(1))[i] == 0);
                    }
                }
            }
        }
        t
    }

    /// Hand the buffer manager back, for shutdown.
    pub fn into_manager(self) -> (r: BufferManager)
        ensures
            self.wf() ==> r.wf() && (forall|q: u64| r.pins(q) == 0),
    {
        self.manager
    }

    /// Read the current bytes of tree page `p`; nothing changes.
    fn read_tree_page(&mut self, p: u64) -> (r: Vec<u8>)
        requires
            old(self).wf(),
            p < SEGMENT_PAGES,
        ensures
            final(self).wf(),
            final(self).id_spec() == old(self).id_spec(),
            final(self).root_spec() == old(self).root_spec(),
            final(self).next_free_spec() == old(self).next_free_spec(),
            forall|p2: u64|
                p2 < SEGMENT_PAGES ==> final(self).page_of(p2) == old(self).page_of(p2),
            r@ == old(self).page_of(p),
            r@.len() == PAGE_SIZE,
    {
        let pid: u64 = join_segment(self.segment, p);
        proof {
            self.manager.lemma_quiescent_can_fix(pid);
        }
        let handle: FrameHandle = match self.manager.fix_page(pid) {
            Some(h) => h,
            None => {
                proof {
                    assert(false);
                }
                vstd::pervasive::unreached()
            },
        };
        let bytes: Vec<u8> = read_bytes_at(self.manager.read_fixed(&handle), 0, PAGE_SIZE);
        let ghost pre = *old(self);
        self.manager.unfix_page(handle, false);
        proof {
            assert(bytes@ =~= pre.page_of(p));
            assert(self.wf()) by {
                assert forall|q: u64| self.manager.pins(q) == 0 by {}
                assert forall|p2: u64| p2 < self.next_free_page implies wf_node_page(
                    self.page_of(p2),
                ) && branch_children_ok(#[trigger] self.page_of(p2), self.next_free_page) by {
                    assert(self.page_of(p2) == pre.page_of(p2));
                }
                assert forall|p2: u64|
                    self.next_free_page <= p2 < SEGMENT_PAGES implies self.page_of(p2)
                    == spec_zeros(PAGE_SIZE as int) by {
                    assert(self.page_of(p2) == pre.page_of(p2));
                }
            }
        }
        bytes
    }

    /// Overwrite tree page `p` with a well-formed node; every other page
    /// keeps its bytes.
    fn write_tree_page(&mut self, p: u64, bytes: Vec<u8>)
        requires
            old(self).wf(),
            p < old(self).next_free_spec(),
            wf_node_page(bytes@),
            branch_children_ok(bytes@, old(self).next_free_spec()),
        ensures
            final(self).wf(),
            final(self).id_spec() == old(self).id_spec(),
            final(self).root_spec() == old(self).root_spec(),
            final(self).next_free_spec() == old(self).next_free_spec(),
            final(self).page_of(p) == bytes@,
            forall|p2: u64|
                p2 < SEGMENT_PAGES && p2 != p ==> final(self).page_of(p2) == old(self).page_of(
                    p2,
                ),
    {
        let pid: u64 = join_segment(self.segment, p);
        proof {
            self.manager.lemma_quiescent_can_fix(pid);
        }
        let handle: FrameHandle = match self.manager.fix_page(pid) {
            Some(h) => h,
            None => {
                proof {
                    assert(false);
                }
                vstd::pervasive::unreached()
            },
        };
        let ghost pre = *old(self);
        self.manager.write_fixed(&handle, bytes);
        self.manager.unfix_page(handle, true);
        proof {
            assert forall|p2: u64| p2 < SEGMENT_PAGES && p2 != p implies self.page_of(p2)
                == pre.page_of(p2) by {
                lemma_tree_pid_injective(self.segment, p2, p);
            }
            assert(self.wf()) by {
                assert forall|q: u64| self.manager.pins(q) == 0 by {}
                assert forall|p2: u64| p2 < self.next_free_page implies wf_node_page(
                    self.page_of(p2),
                ) && branch_children_ok(#[trigger] self.page_of(p2), self.next_free_page) by {
                    if p2 != p {
                        lemma_tree_pid_injective(self.segment, p2, p);
                        assert(self.page_of(p2) == pre.page_of(p2));
                    }
                }
                assert forall|p2: u64|
                    self.next_free_page <= p2 < SEGMENT_PAGES implies self.page_of(p2)
                    == spec_zeros(PAGE_SIZE as int) by {
                    lemma_tree_pid_injective(self.segment, p2, p);
                    assert(self.page_of(p2) == pre.page_of(p2));
                }
            }
        }
    }

    /// Put a pair into the node at `page`, splitting it if full: the lower
    /// half moves to a freshly allocated page and the separator comes back
    /// for the parent. Fails, changing nothing, only when a needed fresh
    /// page cannot be allocated. Leaf pairs of every other key, on this and
    /// every other page, are kept.
    #[verifier::loop_isolation(false)]
    #[verifier::rlimit(60)]
    fn node_put(&mut self, page: u64, key: u64, val: u64) -> (r: (bool, Option<(u64, u64)>))
        requires
            old(self).wf(),
            page < old(self).next_free_spec(),
            key != 0,
            val < TID_LIMIT,
            !node_is_leaf(old(self).page_of(page)) ==> 1 <= val < old(self).next_free_spec(),
        ensures
            final(self).wf(),
            final(self).id_spec() == old(self).id_spec(),
            final(self).root_spec() == old(self).root_spec(),
            final(self).next_free_spec() >= old(self).next_free_spec(),
            final(self).next_free_spec() <= old(self).next_free_spec() + 1,
            old(self).next_free_spec() < SEGMENT_PAGES ==> r.0,
            r.0 && node_is_leaf(old(self).page_of(page)) ==> final(self).tree_contains(
                key,
                val,
            ),
            forall|k2: u64, v2: u64|
                k2 != 0 && k2 != key && old(self).tree_contains(k2, v2) ==> final(self).tree_contains(k2, v2),
            !node_is_leaf(old(self).page_of(page)) ==> forall|k2: u64, v2: u64|
                k2 != 0 && old(self).tree_contains(k2, v2) ==> final(self).tree_contains(
                    k2,
                    v2,
                ),
            !r.0 ==> final(self).next_free_spec() == old(self).next_free_spec() && forall|
                p2: u64,
            | p2 < SEGMENT_PAGES ==> final(self).page_of(p2) == old(self).page_of(p2),
            match r.1 {
                Some(o) => o.0 != 0 && o.0 < 0xffff_ffff_ffff_ffffu64 && 1 <= o.1 < final(self).next_free_spec(),
                None => true,
            },
    {
        let ghost m0 = *old(self);
        let bytes: Vec<u8> = self.read_tree_page(page);
        let leaf: bool = bytes[0] == LEAF_MARKER;
        let (keys, vals) = read_node(&bytes);
        let n: usize = used_count_exec(&keys);
        proof {
            assert(wf_node_page(m0.page_of(page)));
            assert(keys@ == keys_of(m0.page_of(page)));
        }
        let existing: Option<usize> = leaf_find(&keys, &vals, key);
        if n < NODE_ENTRIES || existing.is_some() {
            proof {
                if existing is Some {
                    let i = existing->Some_0 as int;
                    assert(keys@[i] == key);
                }
            }
            let (nk, nv) = insert_pair(&keys, &vals, key, val);
            let pagebytes: Vec<u8> = write_node(leaf, &nk, &nv);
            proof {
                assert(wf_node_page(pagebytes@)) by {
                    if leaf {
                        assert forall|i: int| 0 <= i < NODE_ENTRIES implies entry_val(
                            pagebytes@,
                            i,
                        ) < TID_LIMIT by {
                            assert(nv@[i] == val || (exists|j: int|
                                0 <= j < NODE_ENTRIES && nv@[i] == vals@[j]));
                        }
                    }
                }
                assert(branch_children_ok(pagebytes@, self.next_free_spec())) by {
                    if !leaf {
                        assert(branch_children_ok(m0.page_of(page), m0.next_free_spec()));
                        assert forall|k2: u64, v2: u64|
                            k2 != 0 && #[trigger] vec_has(
                                keys_of(pagebytes@),
                                vals_of(pagebytes@),
                                k2,
                                v2,
                            ) implies 1 <= v2 < self.next_free_spec() by {
                            assert(vec_has(nk@, nv@, k2, v2));
                            if k2 == key {
                                assert(v2 == val);
                            } else {
                                assert(vec_has(keys@, vals@, k2, v2));
                                assert(vec_has(
                                    keys_of(m0.page_of(page)),
                                    vals_of(m0.page_of(page)),
                                    k2,
                                    v2,
                                ));
                            }
                        }
                    }
                }
            }
            self.write_tree_page(page, pagebytes);
            proof {
                if leaf {
                    assert(self.tree_contains(key, val)) by {
                        let i = choose|i: int|
                            0 <= i < nk@.len() && nk@[i] == key && nv@[i] == val;
                        assert(leaf_has(self.page_of(page), key, val));
                    }
                }
                assert forall|k2: u64, v2: u64|
                    k2 != 0 && (k2 != key || !leaf) && m0.tree_contains(k2, v2) implies self.tree_contains(
                    k2,
                    v2,
                ) by {
                    let q = choose|q: u64|
                        q < m0.next_free_spec() && leaf_has(m0.page_of(q), k2, v2);
                    if q != page {
                        assert(leaf_has(self.page_of(q), k2, v2));
                    } else {
                        assert(leaf_has(m0.page_of(page), k2, v2));
                        assert(leaf);
                        let i = choose|i: int|
                            0 <= i < NODE_ENTRIES && entry_key(m0.page_of(page), i) == k2
                                && entry_val(m0.page_of(page), i) == v2;
                        assert(keys@[i] == k2 && vals@[i] == v2);
                        assert(vec_has(keys@, vals@, k2, v2));
                        assert(vec_has(nk@, nv@, k2, v2));
                        let t = choose|t: int|
                            0 <= t < nk@.len() && nk@[t] == k2 && nv@[t] == v2;
                        assert(entry_key(self.page_of(page), t) == k2);
                        assert(leaf_has(self.page_of(page), k2, v2));
                    }
                }
            }
            return (true, None);
        }
        // The node is full and lacks the key: split it.
        if self.next_free_page == SEGMENT_PAGES {
            return (false, None);
        }
        let (lk, lv, hk, hv, sep) = split_columns(&keys, &vals);
        let ghost m0b = *self;
        let np: u64 = self.next_free_page;
        self.next_free_page = self.next_free_page + 1;
        proof {
            lemma_zero_node_page_wf();
            assert(m0b.page_of(np) == spec_zeros(PAGE_SIZE as int));
            assert(self.wf()) by {
                assert forall|p2: u64| p2 < self.next_free_page implies wf_node_page(
                    self.page_of(p2),
                ) && branch_children_ok(#[trigger] self.page_of(p2), self.next_free_page) by {
                    assert(self.page_of(p2) == m0b.page_of(p2));
                    if p2 == np {
                        assert(self.page_of(np) == spec_zeros(PAGE_SIZE as int));
                        lemma_zero_branch_children(self.next_free_page);
                    } else {
                        lemma_children_ok_monotone(
                            self.page_of(p2),
                            m0b.next_free_page,
                            self.next_free_page,
                        );
                    }
                }
                assert forall|p2: u64|
                    self.next_free_page <= p2 < SEGMENT_PAGES implies self.page_of(p2)
                    == spec_zeros(PAGE_SIZE as int) by {
                    assert(self.page_of(p2) == m0b.page_of(p2));
                }
            }
        }
        let (low, high) = if key <= sep {
            let (a, b) = insert_pair(&lk, &lv, key, val);
            ((a, b), (copy_words(&hk), copy_words(&hv)))
        } else {
            let (a, b) = insert_pair(&hk, &hv, key, val);
            ((copy_words(&lk), copy_words(&lv)), (a, b))
        };
        let (low_k, low_v) = low;
        let (high_k, high_v) = high;
        proof {
            assert(node_vecs_wf(low_k@, low_v@));
            assert(node_vecs_wf(high_k@, high_v@));
            if leaf {
                assert forall|i: int| 0 <= i < NODE_ENTRIES implies low_v@[i] < TID_LIMIT
                    && high_v@[i] < TID_LIMIT by {
                    assert(low_v@[i] == val || low_v@[i] == 0 || (exists|j: int|
                        0 <= j < NODE_ENTRIES && low_v@[i] == vals@[j]));
                    assert(high_v@[i] == val || high_v@[i] == 0 || (exists|j: int|
                        0 <= j < NODE_ENTRIES && high_v@[i] == vals@[j]));
                }
            }
        }
        let low_bytes: Vec<u8> = write_node(leaf, &low_k, &low_v);
        let high_bytes: Vec<u8> = write_node(leaf, &high_k, &high_v);
        proof {
            assert(wf_node_page(low_bytes@)) by {
                if leaf {
                    assert forall|i: int| 0 <= i < NODE_ENTRIES implies entry_val(
                        low_bytes@,
                        i,
                    ) < TID_LIMIT by {
                        assert(entry_val(low_bytes@, i) == low_v@[i]);
                    }
                }
            }
            assert(wf_node_page(high_bytes@)) by {
                if leaf {
                    assert forall|i: int| 0 <= i < NODE_ENTRIES implies entry_val(
                        high_bytes@,
                        i,
                    ) < TID_LIMIT by {
                        assert(entry_val(high_bytes@, i) == high_v@[i]);
                    }
                }
            }
        }
        proof {
            if !leaf {
                assert(branch_children_ok(m0.page_of(page), m0.next_free_spec()));
                assert forall|k2: u64, v2: u64|
                    k2 != 0 && #[trigger] vec_has(
                        keys_of(low_bytes@),
                        vals_of(low_bytes@),
                        k2,
                        v2,
                    ) implies 1 <= v2 < self.next_free_spec() by {
                    assert(vec_has(low_k@, low_v@, k2, v2));
                    if key <= sep && k2 == key {
                        assert(v2 == val);
                    } else {
                        assert(vec_has(lk@, lv@, k2, v2));
                        assert(vec_has(keys@, vals@, k2, v2));
                        assert(vec_has(
                            keys_of(m0.page_of(page)),
                            vals_of(m0.page_of(page)),
                            k2,
                            v2,
                        ));
                    }
                }
                assert forall|k2: u64, v2: u64|
                    k2 != 0 && #[trigger] vec_has(
                        keys_of(high_bytes@),
                        vals_of(high_bytes@),
                        k2,
                        v2,
                    ) implies 1 <= v2 < self.next_free_spec() by {
                    assert(vec_has(high_k@, high_v@, k2, v2));
                    if !(key <= sep) && k2 == key {
                        assert(v2 == val);
                    } else {
                        assert(vec_has(hk@, hv@, k2, v2));
                        assert(vec_has(keys@, vals@, k2, v2));
                        assert(vec_has(
                            keys_of(m0.page_of(page)),
                            vals_of(m0.page_of(page)),
                            k2,
                            v2,
                        ));
                    }
                }
            }
            assert(branch_children_ok(low_bytes@, self.next_free_spec()));
            assert(branch_children_ok(high_bytes@, self.next_free_spec()));
        }
        self.write_tree_page(np, low_bytes);
        let ghost m1 = *self;
        self.write_tree_page(page, high_bytes);
        proof {
            assert(self.page_of(np) == low_bytes@) by {
                assert(np != page);
            }
            assert(self.page_of(page) == high_bytes@);
            if leaf {
                assert(self.tree_contains(key, val)) by {
                    if key <= sep {
                        let i = choose|i: int|
                            0 <= i < low_k@.len() && low_k@[i] == key && low_v@[i] == val;
                        assert(leaf_has(self.page_of(np), key, val));
                    } else {
                        let i = choose|i: int|
                            0 <= i < high_k@.len() && high_k@[i] == key && high_v@[i] == val;
                        assert(leaf_has(self.page_of(page), key, val));
                    }
                }
            }
            assert forall|k2: u64, v2: u64|
                k2 != 0 && (k2 != key || !leaf) && m0.tree_contains(k2, v2) implies self.tree_contains(
                k2,
                v2,
            ) by {
                let q = choose|q: u64| q < m0.next_free_spec() && leaf_has(m0.page_of(q), k2, v2);
                if q != page {
                    assert(q != np);
                    assert(self.page_of(q) == m0.page_of(q));
                    assert(leaf_has(self.page_of(q), k2, v2));
                } else {
                    assert(leaf);
                    let i = choose|i: int|
                        0 <= i < NODE_ENTRIES && entry_key(m0.page_of(page), i) == k2
                            && entry_val(m0.page_of(page), i) == v2;
                    assert(keys@[i] == k2 && vals@[i] == v2);
                    assert(vec_has(keys@, vals@, k2, v2));
                    if vec_has(lk@, lv@, k2, v2) {
                        assert(vec_has(low_k@, low_v@, k2, v2));
                        let t = choose|t: int|
                            0 <= t < low_k@.len() && low_k@[t] == k2 && low_v@[t] == v2;
                        assert(entry_key(self.page_of(np), t) == k2);
                        assert(leaf_has(self.page_of(np), k2, v2));
                    } else {
                        assert(vec_has(hk@, hv@, k2, v2));
                        assert(vec_has(high_k@, high_v@, k2, v2));
                        let t = choose|t: int|
                            0 <= t < high_k@.len() && high_k@[t] == k2 && high_v@[t] == v2;
                        assert(entry_key(self.page_of(page), t) == k2);
                        assert(leaf_has(self.page_of(page), k2, v2));
                    }
                }
            }
        }
        (true, Some((sep, np)))
    }

    /// Stored pairs depend only on the pages and the allocation bound.
    proof fn lemma_contains_preserved(pre: BTree, post: BTree)
        requires
            post.next_free_spec() == pre.next_free_spec(),
            forall|p2: u64| p2 < SEGMENT_PAGES ==> post.page_of(p2) == pre.page_of(p2),
            pre.next_free_spec() <= SEGMENT_PAGES,
        ensures
            forall|k: u64, v: u64| pre.tree_contains(k, v) ==> post.tree_contains(k, v),
    {
        assert forall|k: u64, v: u64| pre.tree_contains(k, v) implies post.tree_contains(
            k,
            v,
        ) by {
            let q = choose|q: u64| q < pre.next_free_spec() && leaf_has(pre.page_of(q), k, v);
            assert(post.page_of(q) == pre.page_of(q));
            assert(leaf_has(post.page_of(q), k, v));
        }
    }

    /// Allocate a fresh page and write a single-pair leaf onto it.
    fn make_leaf_page(&mut self, key: u64, val: u64) -> (r: (bool, u64))
        requires
            old(self).wf(),
            key != 0,
            val < TID_LIMIT,
        ensures
            final(self).wf(),
            final(self).id_spec() == old(self).id_spec(),
            final(self).root_spec() == old(self).root_spec(),
            final(self).next_free_spec() >= old(self).next_free_spec(),
            r.0 ==> final(self).tree_contains(key, val) && 1 <= r.1 < final(self).next_free_spec(),
            r.0 ==> forall|p2: u64|
                p2 < SEGMENT_PAGES && p2 != r.1 ==> final(self).page_of(p2) == old(self).page_of(p2),
            r.0 ==> r.1 >= old(self).next_free_spec(),
            final(self).next_free_spec() <= old(self).next_free_spec() + 1,
            old(self).next_free_spec() < SEGMENT_PAGES ==> r.0,
            forall|k2: u64, v2: u64|
                k2 != 0 && old(self).tree_contains(k2, v2) ==> final(self).tree_contains(
                    k2,
                    v2,
                ),
            !r.0 ==> final(self).next_free_spec() == old(self).next_free_spec() && forall|
                p2: u64,
            | p2 < SEGMENT_PAGES ==> final(self).page_of(p2) == old(self).page_of(p2),
    {
        if self.next_free_page == SEGMENT_PAGES {
            return (false, 0);
        }
        let ghost m0 = *old(self);
        let np: u64 = self.next_free_page;
        self.next_free_page = self.next_free_page + 1;
        proof {
            lemma_zero_node_page_wf();
            assert(m0.page_of(np) == spec_zeros(PAGE_SIZE as int));
            assert(self.wf()) by {
                assert forall|p2: u64| p2 < self.next_free_page implies wf_node_page(
                    self.page_of(p2),
                ) && branch_children_ok(#[trigger] self.page_of(p2), self.next_free_page) by {
                    assert(self.page_of(p2) == m0.page_of(p2));
                    if p2 == np {
                        assert(self.page_of(np) == spec_zeros(PAGE_SIZE as int));
                        lemma_zero_branch_children(self.next_free_page);
                    } else {
                        lemma_children_ok_monotone(
                            self.page_of(p2),
                            m0.next_free_page,
                            self.next_free_page,
                        );
                    }
                }
                assert forall|p2: u64|
                    self.next_free_page <= p2 < SEGMENT_PAGES implies self.page_of(p2)
                    == spec_zeros(PAGE_SIZE as int) by {
                    assert(self.page_of(p2) == m0.page_of(p2));
                }
            }
        }
        let mut keys: Vec<u64> = Vec::new();
        let mut vals: Vec<u64> = Vec::new();
        keys.push(key);
        vals.push(val);
        let mut i: usize = 1;
        while i < NODE_ENTRIES
            invariant
                1 <= i <= NODE_ENTRIES,
                keys@.len() == i,
                vals@.len() == i,
                keys@[0] == key,
                vals@[0] == val,
                forall|j: int| 1 <= j < i ==> keys@[j] == 0 && vals@[j] == 0,
            decreases NODE_ENTRIES - i,
        {
            keys.push(0);
            vals.push(0);
            i = i + 1;
        }
        proof {
            lemma_used_count_from(keys@, 1);
            assert(node_vecs_wf(keys@, vals@));
        }
        let page_bytes: Vec<u8> = write_node(true, &keys, &vals);
        proof {
            assert(wf_node_page(page_bytes@)) by {
                assert forall|t: int| 0 <= t < NODE_ENTRIES implies entry_val(page_bytes@, t)
                    < TID_LIMIT by {
                    assert(entry_val(page_bytes@, t) == vals@[t]);
                }
            }
        }
        proof {
            assert(branch_children_ok(page_bytes@, self.next_free_spec()));
        }
        self.write_tree_page(np, page_bytes);
        proof {
            assert(self.tree_contains(key, val)) by {
                assert(entry_key(self.page_of(np), 0) == key && entry_val(self.page_of(np), 0)
                    == val);
                assert(leaf_has(self.page_of(np), key, val));
            }
            assert forall|k2: u64, v2: u64|
                k2 != 0 && m0.tree_contains(k2, v2) implies self.tree_contains(k2, v2) by {
                let q = choose|q: u64| q < m0.next_free_spec() && leaf_has(m0.page_of(q), k2, v2);
                assert(q != np);
                assert(leaf_has(self.page_of(q), k2, v2));
            }
        }
        (true, np)
    }

    /// Insert a pair into the subtree at `page`, splitting on the way back
    /// up: an overflow hands the parent a separator and the page of the new
    /// sibling. On success the pair sits in some leaf; pairs of other keys
    /// are never lost.
    fn insert_at(&mut self, page: u64, key: u64, val: u64, fuel: u64) -> (r: (bool, Option<(u64, u64)>))
        requires
            old(self).wf(),
            page < old(self).next_free_spec(),
            key != 0,
            val < TID_LIMIT,
        ensures
            final(self).wf(),
            final(self).id_spec() == old(self).id_spec(),
            final(self).root_spec() == old(self).root_spec(),
            final(self).next_free_spec() >= old(self).next_free_spec(),
            final(self).next_free_spec() <= old(self).next_free_spec() + fuel + 1,
            old(self).insert_descends(page, key, fuel as nat) && old(self).next_free_spec()
                + fuel + 1 <= SEGMENT_PAGES ==> r.0,
            r.0 ==> final(self).tree_contains(key, val),
            forall|k2: u64, v2: u64|
                k2 != 0 && k2 != key && old(self).tree_contains(k2, v2) ==> final(self).tree_contains(k2, v2),
            match r.1 {
                Some(o) => o.0 != 0 && o.0 < 0xffff_ffff_ffff_ffffu64 && 1 <= o.1 < final(self).next_free_spec(),
                None => true,
            },
        decreases fuel,
    {
        if fuel == 0 {
            return (false, None);
        }
        let bytes: Vec<u8> = self.read_tree_page(page);
        proof {
            assert(wf_node_page(bytes@));
        }
        let tag: u8 = bytes[0];
        if tag == LEAF_MARKER {
            return self.node_put(page, key, val);
        }
        let (keys, vals) = read_node(&bytes);
        match branch_find(&keys, &vals, key) {
            Some(i) => {
                let c: u64 = vals[i];
                proof {
                    // The branch invariant keeps every used child pointer
                    // within the allocated pages.
                    assert(branch_children_ok(
                        old(self).page_of(page),
                        old(self).next_free_spec(),
                    ));
                    assert(keys@[i as int] != 0);
                    assert(vec_has(keys_of(bytes@), vals_of(bytes@), keys@[i as int], c));
                    assert(1 <= c < self.next_free_spec());
                    lemma_branch_child_found(bytes@, key, i as int);
                    Self::lemma_insert_descends_frame(*old(self), *self, c, key, (fuel - 1) as nat);
                }
                let rr = self.insert_at(c, key, val, fuel - 1);
                if !rr.0 {
                    proof {
                        if old(self).insert_descends(page, key, fuel as nat) && old(
                            self,
                        ).next_free_spec() + fuel + 1 <= SEGMENT_PAGES {
                            assert(rr.0);
                        }
                    }
                    return (false, None);
                }
                match rr.1 {
                    None => (true, None),
                    Some(o) => {
                        let ghost mr = *self;
                        let check: Vec<u8> = self.read_tree_page(page);
                        proof {
                            Self::lemma_contains_preserved(mr, *self);
                        }
                        if check[0] == LEAF_MARKER {
                            // A malformed child reference rewrote this node;
                            // the pair is stored, so stop without relinking.
                            return (true, None);
                        }
                        let ghost m1 = *self;
                        let bp = self.node_put(page, o.0, o.1);
                        proof {
                            assert(!node_is_leaf(m1.page_of(page)));
                            assert(self.tree_contains(key, val)) by {
                                let q = choose|q: u64|
                                    q < m1.next_free_spec() && leaf_has(
                                        m1.page_of(q),
                                        key,
                                        val,
                                    );
                                assert(leaf_has(self.page_of(q), key, val) || self.tree_contains(
                                    key,
                                    val,
                                ));
                            }
                        }
                        if !bp.0 {
                            return (true, None);
                        }
                        (true, bp.1)
                    },
                }
            },
            None => {
                proof {
                    lemma_branch_child_absent(bytes@, key);
                }
                let ghost m1 = *self;
                let (ok, np) = self.make_leaf_page(key, val);
                if !ok {
                    proof {
                        assert(m1.next_free_spec() == SEGMENT_PAGES);
                    }
                    return (false, None);
                }
                let ghost m2 = *self;
                proof {
                    assert(!node_is_leaf(m2.page_of(page))) by {
                        assert(page != np);
                        assert(m2.page_of(page) == bytes@);
                    }
                }
                let bp = self.node_put(page, key, np);
                proof {
                    assert(self.tree_contains(key, val));
                }
                if !bp.0 {
                    return (true, None);
                }
                (true, bp.1)
            },
        }
    }

    /// Insert a key for a TID. The key must not be the reserved zero value.
    /// On success the pair sits in some leaf of the tree; pairs of every
    /// other key are kept, on this and every operation. Overflow of the root
    /// allocates a new branch root over the two halves. Returns false only
    /// when the segment's pages or the descent budget are exhausted.
    pub fn insert(&mut self, key: u64, tid: TID) -> (res: bool)
        requires
            old(self).wf(),
            key != 0,
            tid.wf(),
        ensures
            final(self).wf(),
            final(self).id_spec() == old(self).id_spec(),
            old(self).insert_descends(old(self).root_spec(), key, DEPTH_LIMIT as nat) && old(
                self,
            ).next_free_spec() + DEPTH_LIMIT + 1 <= SEGMENT_PAGES ==> res,
            res ==> final(self).tree_contains(key, tid.raw()),
            forall|k2: u64, v2: u64|
                k2 != 0 && k2 != key && old(self).tree_contains(k2, v2) ==> final(self).tree_contains(k2, v2),
    {
        let root: u64 = self.root;
        let rr = self.insert_at(root, key, tid.raw_exec(), DEPTH_LIMIT);
        if !rr.0 {
            return false;
        }
        match rr.1 {
            None => true,
            Some(o) => {
                let ghost m1 = *self;
                if self.next_free_page == SEGMENT_PAGES {
                    // No page left for a new root; the split halves stay
                    // reachable through the allocator, and every pair is
                    // still stored.
                    return true;
                }
                let np: u64 = self.next_free_page;
                self.next_free_page = self.next_free_page + 1;
                proof {
                    lemma_zero_node_page_wf();
                    assert(m1.page_of(np) == spec_zeros(PAGE_SIZE as int));
                    assert(self.wf()) by {
                        assert forall|p2: u64| p2 < self.next_free_page implies wf_node_page(
                            self.page_of(p2),
                        ) && branch_children_ok(
                            #[trigger] self.page_of(p2),
                            self.next_free_page,
                        ) by {
                            assert(self.page_of(p2) == m1.page_of(p2));
                            if p2 == np {
                                assert(self.page_of(np) == spec_zeros(PAGE_SIZE as int));
                                lemma_zero_branch_children(self.next_free_page);
                            } else {
                                lemma_children_ok_monotone(
                                    self.page_of(p2),
                                    m1.next_free_page,
                                    self.next_free_page,
                                );
                            }
                        }
                        assert forall|p2: u64|
                            self.next_free_page <= p2 < SEGMENT_PAGES implies self.page_of(p2)
                            == spec_zeros(PAGE_SIZE as int) by {
                            assert(self.page_of(p2) == m1.page_of(p2));
                        }
                    }
                }
                let mut keys: Vec<u64> = Vec::new();
                let mut vals: Vec<u64> = Vec::new();
                keys.push(o.0);
                vals.push(o.1);
                keys.push(0xffff_ffff_ffff_ffffu64);
                vals.push(root);
                let mut i: usize = 2;
                while i < NODE_ENTRIES
                    invariant
                        2 <= i <= NODE_ENTRIES,
                        keys@.len() == i,
                        vals@.len() == i,
                        keys@[0] == o.0,
                        keys@[1] == 0xffff_ffff_ffff_ffffu64,
                        vals@[0] == o.1,
                        vals@[1] == root,
                        forall|j: int| 2 <= j < i ==> keys@[j] == 0 && vals@[j] == 0,
                    decreases NODE_ENTRIES - i,
                {
                    keys.push(0);
                    vals.push(0);
                    i = i + 1;
                }
                proof {
                    lemma_used_count_from(keys@, 2);
                    assert(node_vecs_wf(keys@, vals@));
                }
                let page_bytes: Vec<u8> = write_node(false, &keys, &vals);
                proof {
                    assert(branch_children_ok(page_bytes@, self.next_free_spec())) by {
                        assert forall|k2: u64, v2: u64|
                            k2 != 0 && #[trigger] vec_has(
                                keys_of(page_bytes@),
                                vals_of(page_bytes@),
                                k2,
                                v2,
                            ) implies 1 <= v2 < self.next_free_spec() by {
                            let t = choose|t: int|
                                0 <= t < keys_of(page_bytes@).len() && keys_of(page_bytes@)[t]
                                    == k2 && vals_of(page_bytes@)[t] == v2;
                            assert(keys_of(page_bytes@)[t] == keys@[t]);
                            if t >= 2 {
                                assert(keys@[t] == 0);
                            }
                        }
                    }
                }
                let ghost m1b = *self;
                self.write_tree_page(np, page_bytes);
                let ghost mw = *self;
                self.root = np;
                proof {
                    assert forall|p2: u64| p2 < SEGMENT_PAGES implies self.page_of(p2)
                        == mw.page_of(p2) by {}
                    assert(self.wf()) by {
                        assert(mw.wf());
                        assert forall|q: u64| self.manager.pins(q) == 0 by {
                            assert(mw.manager.pins(q) == 0);
                        }
                        assert forall|p2: u64| p2 < self.next_free_page implies wf_node_page(
                            self.page_of(p2),
                        ) && branch_children_ok(
                            #[trigger] self.page_of(p2),
                            self.next_free_page,
                        ) by {
                            assert(wf_node_page(mw.page_of(p2)));
                            assert(branch_children_ok(mw.page_of(p2), mw.next_free_page));
                        }
                        assert forall|p2: u64|
                            self.next_free_page <= p2 < SEGMENT_PAGES implies self.page_of(p2)
                            == spec_zeros(PAGE_SIZE as int) by {
                            assert(mw.page_of(p2) == spec_zeros(PAGE_SIZE as int));
                        }
                    }
                    assert(self.tree_contains(key, tid.raw())) by {
                        let q = choose|q: u64|
                            q < m1.next_free_spec() && leaf_has(m1.page_of(q), key, tid.raw());
                        assert(q != np);
                        assert(m1b.page_of(q) == m1.page_of(q));
                        assert(mw.page_of(q) == m1b.page_of(q));
                        assert(self.page_of(q) == mw.page_of(q));
                        assert(leaf_has(self.page_of(q), key, tid.raw()));
                    }
                    assert forall|k2: u64, v2: u64|
                        k2 != 0 && k2 != key && old(self).tree_contains(k2, v2) implies self.tree_contains(
                        k2,
                        v2,
                    ) by {
                        assert(m1.tree_contains(k2, v2));
                        let q = choose|q: u64|
                            q < m1.next_free_spec() && leaf_has(m1.page_of(q), k2, v2);
                        assert(q != np);
                        assert(m1b.page_of(q) == m1.page_of(q));
                        assert(mw.page_of(q) == m1b.page_of(q));
                        assert(self.page_of(q) == mw.page_of(q));
                        assert(leaf_has(self.page_of(q), k2, v2));
                    }
                }
                true
            },
        }
    }

    /// Erase a key: descend to the leaf the key belongs to and drop its
    /// entry, shifting later entries down. Afterwards a lookup of the key
    /// finds nothing, and every other key answers as before. Rebalancing is
    /// not attempted.
    #[verifier::loop_isolation(false)]
    #[verifier::spinoff_prover]
    #[verifier::rlimit(100)]
    pub fn erase(&mut self, key: u64)
        requires
            old(self).wf(),
            key != 0,
        ensures
            final(self).wf(),
            final(self).id_spec() == old(self).id_spec(),
            final(self).root_spec() == old(self).root_spec(),
            final(self).next_free_spec() == old(self).next_free_spec(),
            final(self).lookup_spec(key) == Option::<u64>::None,
            forall|k2: u64|
                k2 != 0 && k2 != key ==> final(self).lookup_spec(k2) == old(self).lookup_spec(
                    k2,
                ),
            forall|k2: u64, v2: u64|
                k2 != 0 && k2 != key && old(self).tree_contains(k2, v2) ==> final(self).tree_contains(k2, v2),
    {
        let ghost m0 = *old(self);
        let mut cur: u64 = self.root;
        let mut fuel: u64 = DEPTH_LIMIT;
        loop
            invariant
                self.wf(),
                self.id_spec() == m0.id_spec(),
                self.root_spec() == m0.root_spec(),
                self.next_free_spec() == m0.next_free_spec(),
                forall|p2: u64| p2 < SEGMENT_PAGES ==> self.page_of(p2) == m0.page_of(p2),
                m0.descend_target(m0.root_spec(), key, DEPTH_LIMIT as nat)
                    == m0.descend_target(cur, key, fuel as nat),
            decreases fuel,
        {
            if fuel == 0 {
                proof {
                    Self::lemma_descend_frame(m0, *self, m0.root_spec(), key, DEPTH_LIMIT as nat);
                    lemma_same_lookup(m0, *self);
                }
                return ;
            }
            if cur >= SEGMENT_PAGES {
                proof {
                    lemma_same_lookup(m0, *self);
                }
                return ;
            }
            let bytes: Vec<u8> = self.read_tree_page(cur);
            proof {
                assert(bytes@ == m0.page_of(cur));
                assert(wf_node_page(bytes@)) by {
                    if cur >= m0.next_free_spec() {
                        assert(m0.page_of(cur) == spec_zeros(PAGE_SIZE as int));
                        lemma_zero_node_page_wf();
                    }
                }
            }
            let tag: u8 = bytes[0];
            let (keys, vals) = read_node(&bytes);
            if tag == LEAF_MARKER {
                let (nk, nv) = remove_pair(&keys, &vals, key);
                let page_bytes: Vec<u8> = write_node(true, &nk, &nv);
                proof {
                    assert(wf_node_page(page_bytes@)) by {
                        assert forall|i: int| 0 <= i < NODE_ENTRIES implies entry_val(
                            page_bytes@,
                            i,
                        ) < TID_LIMIT by {
                            assert(entry_val(page_bytes@, i) == nv@[i]);
                            assert(nv@[i] == 0 || (exists|j: int|
                                0 <= j < NODE_ENTRIES && nv@[i] == vals@[j]));
                        }
                    }
                }
                proof {
                    assert(branch_children_ok(page_bytes@, self.next_free_spec()));
                }
                let ghost mr = *self;
                if cur >= self.next_free_page {
                    // A descent into unallocated space found a zero page; it
                    // is a branch, so this cannot happen for a leaf tag.
                    proof {
                        assert(false);
                    }
                    return ;
                }
                self.write_tree_page(cur, page_bytes);
                proof {
                    Self::lemma_descend_leaf_change(
                        mr,
                        *self,
                        cur,
                        m0.root_spec(),
                        key,
                        DEPTH_LIMIT as nat,
                    );
                    Self::lemma_descend_frame(m0, mr, m0.root_spec(), key, DEPTH_LIMIT as nat);
                    assert(self.lookup_spec(key) == Option::<u64>::None) by {
                        assert(self.descend_target(self.root_spec(), key, DEPTH_LIMIT as nat)
                            == Some(cur));
                        assert forall|i: int|
                            0 <= i < NODE_ENTRIES implies keys_of(self.page_of(cur))[i]
                            != key by {
                            assert(keys_of(self.page_of(cur))[i] == nk@[i]);
                        }
                        lemma_leaf_lookup_absent(self.page_of(cur), key);
                    }
                    assert forall|k2: u64| k2 != 0 && k2 != key implies self.lookup_spec(k2)
                        == m0.lookup_spec(k2) by {
                        Self::lemma_descend_leaf_change(
                            mr,
                            *self,
                            cur,
                            m0.root_spec(),
                            k2,
                            DEPTH_LIMIT as nat,
                        );
                        Self::lemma_descend_frame(m0, mr, m0.root_spec(), k2, DEPTH_LIMIT as nat);
                        match m0.descend_target(m0.root_spec(), k2, DEPTH_LIMIT as nat) {
                            Option::None => {},
                            Option::Some(l) => {
                                if l == cur {
                                    lemma_same_leaf_answer(
                                        m0.page_of(cur),
                                        self.page_of(cur),
                                        keys@,
                                        vals@,
                                        nk@,
                                        nv@,
                                        k2,
                                        key,
                                    );
                                } else {
                                    assert(self.page_of(l) == m0.page_of(l)) by {
                                        m0.lemma_target_bounds(
                                            m0.root_spec(),
                                            k2,
                                            DEPTH_LIMIT as nat,
                                        );
                                    }
                                }
                            },
                        }
                    }
                    assert forall|k2: u64, v2: u64|
                        k2 != 0 && k2 != key && m0.tree_contains(k2, v2) implies self.tree_contains(
                        k2,
                        v2,
                    ) by {
                        let q = choose|q: u64|
                            q < m0.next_free_spec() && leaf_has(m0.page_of(q), k2, v2);
                        if q != cur {
                            assert(leaf_has(self.page_of(q), k2, v2));
                        } else {
                            let i = choose|i: int|
                                0 <= i < NODE_ENTRIES && entry_key(m0.page_of(cur), i) == k2
                                    && entry_val(m0.page_of(cur), i) == v2;
                            assert(keys@[i] == k2 && vals@[i] == v2);
                            assert(vec_has(keys@, vals@, k2, v2));
                            assert(vec_has(nk@, nv@, k2, v2));
                            let t = choose|t: int|
                                0 <= t < nk@.len() && nk@[t] == k2 && nv@[t] == v2;
                            assert(entry_key(self.page_of(cur), t) == k2);
                            assert(leaf_has(self.page_of(cur), k2, v2));
                        }
                    }
                }
                return ;
            }
            match branch_find(&keys, &vals, key) {
                Some(i) => {
                    proof {
                        lemma_branch_child_found(bytes@, key, i as int);
                    }
                    cur = vals[i];
                    fuel = fuel - 1;
                },
                None => {
                    proof {
                        lemma_branch_child_absent(bytes@, key);
                        lemma_same_lookup(m0, *self);
                    }
                    return ;
                },
            }
        }
    }

    /// Look a key up: descend from the root through branch children to a
    /// leaf and return its entry for the key.
    #[verifier::loop_isolation(false)]
    #[verifier::rlimit(80)]
    pub fn lookup(&mut self, key: u64) -> (res: Option<TID>)
        requires
            old(self).wf(),
            key != 0,
        ensures
            final(self).wf(),
            final(self).id_spec() == old(self).id_spec(),
            final(self).root_spec() == old(self).root_spec(),
            final(self).next_free_spec() == old(self).next_free_spec(),
            forall|p2: u64|
                p2 < SEGMENT_PAGES ==> final(self).page_of(p2) == old(self).page_of(p2),
            match res {
                Some(t) => t.wf() && old(self).lookup_spec(key) == Some(t.raw()),
                None => old(self).lookup_spec(key) == Option::<u64>::None,
            },
    {
        let ghost m0 = *old(self);
        let mut cur: u64 = self.root;
        let mut fuel: u64 = DEPTH_LIMIT;
        loop
            invariant
                self.wf(),
                self.id_spec() == m0.id_spec(),
                self.root_spec() == m0.root_spec(),
                self.next_free_spec() == m0.next_free_spec(),
                forall|p2: u64| p2 < SEGMENT_PAGES ==> self.page_of(p2) == m0.page_of(p2),
                m0.descend_target(m0.root_spec(), key, DEPTH_LIMIT as nat)
                    == m0.descend_target(cur, key, fuel as nat),
            decreases fuel,
        {
            if fuel == 0 {
                return None;
            }
            if cur >= SEGMENT_PAGES {
                return None;
            }
            let bytes: Vec<u8> = self.read_tree_page(cur);
            proof {
                assert(bytes@ == m0.page_of(cur));
                assert(wf_node_page(bytes@)) by {
                    if cur >= m0.next_free_spec() {
                        assert(m0.page_of(cur) == spec_zeros(PAGE_SIZE as int));
                        lemma_zero_node_page_wf();
                    }
                }
            }
            let tag: u8 = bytes[0];
            let (keys, vals) = read_node(&bytes);
            if tag == LEAF_MARKER {
                match leaf_find(&keys, &vals, key) {
                    Some(i) => {
                        proof {
                            lemma_leaf_lookup_found(bytes@, key, i as int);
                        }
                        return Some(TID::new_from_u64(vals[i]));
                    },
                    None => {
                        proof {
                            lemma_leaf_lookup_absent(bytes@, key);
                        }
                        return None;
                    },
                }
            }
            match branch_find(&keys, &vals, key) {
                Some(i) => {
                    proof {
                        lemma_branch_child_found(bytes@, key, i as int);
                    }
                    cur = vals[i];
                    fuel = fuel - 1;
                },
                None => {
                    proof {
                        lemma_branch_child_absent(bytes@, key);
                    }
                    return None;
                },
            }
        }
    }
}

/// Drop the entry with this key from sorted node columns, shifting later
/// entries one slot down; columns without the key come back unchanged.
#[verifier::loop_isolation(false)]
fn remove_pair(keys: &Vec<u64>, vals: &Vec<u64>, key: u64) -> (r: (Vec<u64>, Vec<u64>))
    requires
        node_vecs_wf(keys@, vals@),
        key != 0,
    ensures
        node_vecs_wf(r.0@, r.1@),
        forall|i: int| 0 <= i < NODE_ENTRIES ==> r.0@[i] != key,
        forall|k2: u64, v2: u64|
            k2 != 0 && k2 != key ==> vec_has(keys@, vals@, k2, v2) == vec_has(
                r.0@,
                r.1@,
                k2,
                v2,
            ),
        forall|i: int|
            0 <= i < NODE_ENTRIES ==> r.1@[i] == 0 || (exists|j: int|
                0 <= j < NODE_ENTRIES && r.1@[i] == vals@[j]),
{
    proof {
        lemma_used_count_bound(keys@);
    }
    let ghost nn = used_count(keys@) as int;
    let pos: usize = match leaf_find(keys, vals, key) {
        Some(i) => i,
        None => {
            let nk: Vec<u64> = copy_words(keys);
            let nv: Vec<u64> = copy_words(vals);
            proof {
                lemma_used_count_eq(nk@, keys@);
                assert forall|i: int| 0 <= i < NODE_ENTRIES implies nv@[i] == 0 || (exists|
                    j: int,
                |
                    0 <= j < NODE_ENTRIES && nv@[i] == vals@[j]) by {
                    assert(nv@[i] == vals@[i]);
                }
            }
            return (nk, nv);
        },
    };
    proof {
        assert(pos < nn) by {
            if pos >= nn {
                assert(keys@[pos as int] == 0);
            }
        }
    }
    let mut nk: Vec<u64> = Vec::new();
    let mut nv: Vec<u64> = Vec::new();
    let mut j: usize = 0;
    while j < NODE_ENTRIES
        invariant
            j <= NODE_ENTRIES,
            nk@.len() == j,
            nv@.len() == j,
            forall|t: int|
                0 <= t < j ==> nk@[t] == (if t < pos {
                    keys@[t]
                } else if t + 1 < NODE_ENTRIES {
                    keys@[t + 1]
                } else {
                    0u64
                }),
            forall|t: int|
                0 <= t < j ==> nv@[t] == (if t < pos {
                    vals@[t]
                } else if t + 1 < NODE_ENTRIES {
                    vals@[t + 1]
                } else {
                    0u64
                }),
        decreases NODE_ENTRIES - j,
    {
        if j < pos {
            nk.push(keys[j]);
            nv.push(vals[j]);
        } else if j + 1 < NODE_ENTRIES {
            nk.push(keys[j + 1]);
            nv.push(vals[j + 1]);
        } else {
            nk.push(0);
            nv.push(0);
        }
        j = j + 1;
    }
    proof {
        let ks = keys@;
        let vs = vals@;
        let pp = pos as int;
        assert forall|t: int| 0 <= t < nn - 1 implies nk@[t] != 0 by {
            if t < pp {
            } else {
                assert(nk@[t] == ks[t + 1]);
            }
        }
        assert(nn - 1 < NODE_ENTRIES);
        if nn - 1 < NODE_ENTRIES {
            assert(nk@[nn - 1] == 0) by {
                if nn - 1 < pp {
                    assert(false);
                } else if nn < NODE_ENTRIES {
                    assert(nk@[nn - 1] == ks[nn]);
                }
            }
        }
        lemma_used_count_from(nk@, nn - 1);
        assert(node_vecs_wf(nk@, nv@)) by {
            assert forall|a: int, b: int| 0 <= a < b < nn - 1 implies nk@[a] < nk@[b] by {
                if b < pp {
                } else if a < pp {
                    assert(nk@[a] == ks[a] && nk@[b] == ks[b + 1]);
                } else {
                    assert(nk@[a] == ks[a + 1] && nk@[b] == ks[b + 1]);
                }
            }
            assert forall|t: int| nn - 1 <= t < NODE_ENTRIES implies nk@[t] == 0 && nv@[t]
                == 0 by {
                if t + 1 < NODE_ENTRIES {
                    assert(nk@[t] == (if t < pp {
                        ks[t]
                    } else {
                        ks[t + 1]
                    }));
                    if t < pp {
                        assert(false);
                    } else {
                        assert(nn <= t + 1);
                    }
                }
            }
        }
        assert forall|i: int| 0 <= i < NODE_ENTRIES implies nk@[i] != key by {
            if i < pp {
                if nk@[i] == key {
                    lemma_sorted_unique(ks, vs, i, pp);
                }
            } else if i + 1 < NODE_ENTRIES {
                if nk@[i] == key {
                    lemma_sorted_unique(ks, vs, i + 1, pp);
                }
            }
        }
        assert forall|k2: u64, v2: u64| k2 != 0 && k2 != key implies vec_has(ks, vs, k2, v2)
            == vec_has(nk@, nv@, k2, v2) by {
            if vec_has(ks, vs, k2, v2) {
                let t = choose|t: int| 0 <= t < ks.len() && ks[t] == k2 && vs[t] == v2;
                assert(t < nn) by {
                    if t >= nn {
                        assert(ks[t] == 0);
                    }
                }
                assert(t != pp);
                if t < pp {
                    assert(nk@[t] == k2 && nv@[t] == v2);
                } else {
                    assert(nk@[t - 1] == k2 && nv@[t - 1] == v2);
                }
            }
            if vec_has(nk@, nv@, k2, v2) {
                let t = choose|t: int| 0 <= t < nk@.len() && nk@[t] == k2 && nv@[t] == v2;
                if t < pp {
                    assert(ks[t] == k2 && vs[t] == v2);
                } else if t + 1 < NODE_ENTRIES {
                    assert(ks[t + 1] == k2 && vs[t + 1] == v2);
                } else {
                    assert(nk@[t] == 0);
                    assert(false);
                }
            }
        }
        assert forall|i: int| 0 <= i < NODE_ENTRIES implies nv@[i] == 0 || (exists|j2: int|
            0 <= j2 < NODE_ENTRIES && nv@[i] == vs[j2]) by {
            if i < pp {
                assert(nv@[i] == vs[i]);
            } else if i + 1 < NODE_ENTRIES {
                assert(nv@[i] == vs[i + 1]);
            }
        }
    }
    (nk, nv)
}

/// Two trees over the same pages and the same root answer every lookup
/// alike.
proof fn lemma_same_lookup(pre: BTree, post: BTree)
    requires
        post.root_spec() == pre.root_spec(),
        forall|p2: u64| p2 < SEGMENT_PAGES ==> post.page_of(p2) == pre.page_of(p2),
    ensures
        forall|k: u64| post.lookup_spec(k) == pre.lookup_spec(k),
{
    assert forall|k: u64| post.lookup_spec(k) == pre.lookup_spec(k) by {
        BTree::lemma_descend_frame(pre, post, pre.root_spec(), k, DEPTH_LIMIT as nat);
        pre.lemma_target_bounds(pre.root_spec(), k, DEPTH_LIMIT as nat);
        match pre.descend_target(pre.root_spec(), k, DEPTH_LIMIT as nat) {
            Option::None => {},
            Option::Some(l) => {
                assert(post.page_of(l) == pre.page_of(l));
            },
        }
    }
}

/// A leaf that keeps every pair of a key answers that key as before.
proof fn lemma_same_leaf_answer(
    s1: Seq<u8>,
    s2: Seq<u8>,
    k1: Seq<u64>,
    v1: Seq<u64>,
    k2c: Seq<u64>,
    v2c: Seq<u64>,
    k: u64,
    removed: u64,
)
    requires
        node_vecs_wf(k1, v1),
        node_vecs_wf(k2c, v2c),
        k1 == keys_of(s1),
        v1 == vals_of(s1),
        k2c == keys_of(s2),
        v2c == vals_of(s2),
        k != 0,
        k != removed,
        forall|a: u64, b: u64|
            a != 0 && a != removed ==> vec_has(k1, v1, a, b) == vec_has(k2c, v2c, a, b),
    ensures
        leaf_lookup_spec(s2, k) == leaf_lookup_spec(s1, k),
{
    if exists|i: int| 0 <= i < NODE_ENTRIES && entry_key(s1, i) == k {
        let i = choose|i: int| 0 <= i < NODE_ENTRIES && entry_key(s1, i) == k;
        assert(k1[i] == k && v1[i] == entry_val(s1, i));
        assert(vec_has(k1, v1, k, entry_val(s1, i)));
        assert(vec_has(k2c, v2c, k, entry_val(s1, i)));
        let t = choose|t: int| 0 <= t < k2c.len() && k2c[t] == k && v2c[t] == entry_val(s1, i);
        lemma_leaf_lookup_found(s1, k, i);
        lemma_leaf_lookup_found(s2, k, t);
    } else {
        assert forall|i: int| 0 <= i < NODE_ENTRIES implies keys_of(s2)[i] != k by {
            if keys_of(s2)[i] == k {
                assert(vec_has(k2c, v2c, k, v2c[i]));
                assert(vec_has(k1, v1, k, v2c[i]));
                let t = choose|t: int| 0 <= t < k1.len() && k1[t] == k && v1[t] == v2c[i];
                assert(entry_key(s1, t) == k);
            }
        }
        lemma_leaf_lookup_absent(s2, k);
        assert forall|i: int| 0 <= i < NODE_ENTRIES implies keys_of(s1)[i] != k by {
            if keys_of(s1)[i] == k {
                assert(entry_key(s1, i) == k);
            }
        }
        lemma_leaf_lookup_absent(s1, k);
    }
}

/// Distinct page offsets of one segment name distinct page ids.
proof fn lemma_tree_pid_injective(seg: u64, p1: u64, p2: u64)
    requires
        seg < SEGMENT_PAGES,
        p1 < SEGMENT_PAGES,
        p2 < SEGMENT_PAGES,
        p1 != p2,
    ensures
        crate::segment::segment_page_pid(seg, p1) != crate::segment::segment_page_pid(seg, p2),
{
    assert(seg * SEGMENT_PAGES + p1 < 0x1_0000_0000_0000_0000 && seg * SEGMENT_PAGES + p2
        < 0x1_0000_0000_0000_0000) by (nonlinear_arith)
        requires
            seg < 0x1_0000_0000u64,
            p1 < 0x1_0000_0000u64,
            p2 < 0x1_0000_0000u64,
            SEGMENT_PAGES == 0x1_0000_0000u64,
    {
    }
}

} // verus!
