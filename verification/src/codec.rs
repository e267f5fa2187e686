//! Little-endian byte access within page images.
//!
//! Pages are byte vectors; headers, slot words and page-0 lengths are stored
//! as little-endian 64-bit words at fixed offsets. These helpers read and
//! write such words and byte ranges, with contracts over the page's byte
//! sequence.

use vstd::bytes::*;
use vstd::pervasive::VecAdditionalExecFns;
use vstd::prelude::*;
use vstd::slice::*;

verus! {

/// The 64-bit little-endian word stored at `off`.
pub open spec fn spec_word_at(s: Seq<u8>, off: int) -> u64 {
    spec_u64_from_le_bytes(s.subrange(off, off + 8))
}

/// A sequence of `n` zero bytes.
pub open spec fn spec_zeros(n: int) -> Seq<u8> {
    Seq::new(n as nat, |i: int| 0u8)
}

/// Read the 64-bit little-endian word at `off`.
pub fn read_word_at(bytes: &Vec<u8>, off: usize) -> (r: u64)
    requires
        off + 8 <= bytes@.len(),
    ensures
        r == spec_word_at(bytes@, off as int),
{
    let blen: usize = bytes.len();
    u64_from_le_bytes(slice_subrange(bytes.as_slice(), off, off + 8))
}

/// Write `val` as a 64-bit little-endian word at `off`, leaving every byte
/// outside `off..off + 8` unchanged.
pub fn write_word_at(bytes: &mut Vec<u8>, off: usize, val: u64)
    requires
        off + 8 <= old(bytes)@.len(),
    ensures
        final(bytes)@.len() == old(bytes)@.len(),
        spec_word_at(final(bytes)@, off as int) == val,
        forall|i: int|
            0 <= i < old(bytes)@.len() && !(off <= i < off + 8) ==> final(bytes)@[i] == old(
                bytes,
            )@[i],
{
    let le: Vec<u8> = u64_to_le_bytes(val);
    let blen: usize = bytes.len();
    let mut i: usize = 0;
    while i < 8
        invariant
            i <= 8,
            blen == bytes@.len(),
            off + 8 <= bytes@.len(),
            bytes@.len() == old(bytes)@.len(),
            le@ == spec_u64_to_le_bytes(val),
            le@.len() == 8,
            forall|j: int| 0 <= j < i ==> bytes@[off + j] == le@[j],
            forall|j: int|
                0 <= j < old(bytes)@.len() && !(off <= j < off + i) ==> bytes@[j] == old(
                    bytes,
                )@[j],
        decreases 8 - i,
    {
        let b: u8 = le[i];
        bytes.set(off + i, b);
        i = i + 1;
    }
    proof {
        lemma_auto_spec_u64_to_from_le_bytes();
        assert(final(bytes)@.subrange(off as int, off + 8) =~= spec_u64_to_le_bytes(val));
    }
}

/// Copy `src` into `bytes` starting at `off`, leaving every byte outside
/// `off..off + src.len()` unchanged.
pub fn write_bytes_at(bytes: &mut Vec<u8>, off: usize, src: &Vec<u8>)
    requires
        off + src@.len() <= old(bytes)@.len(),
    ensures
        final(bytes)@.len() == old(bytes)@.len(),
        final(bytes)@.subrange(off as int, off + src@.len()) == src@,
        forall|i: int|
            0 <= i < old(bytes)@.len() && !(off <= i < off + src@.len()) ==> final(bytes)@[i]
                == old(bytes)@[i],
{
    let n: usize = src.len();
    let blen: usize = bytes.len();
    let mut i: usize = 0;
    while i < n
        invariant
            i <= n,
            n == src@.len(),
            blen == bytes@.len(),
            off + n <= bytes@.len(),
            bytes@.len() == old(bytes)@.len(),
            forall|j: int| 0 <= j < i ==> bytes@[off + j] == src@[j],
            forall|j: int|
                0 <= j < old(bytes)@.len() && !(off <= j < off + i) ==> bytes@[j] == old(
                    bytes,
                )@[j],
        decreases n - i,
    {
        let b: u8 = src[i];
        bytes.set(off + i, b);
        i = i + 1;
    }
    proof {
        assert(final(bytes)@.subrange(off as int, off + src@.len()) =~= src@);
    }
}

/// Copy the byte range `off..off + len` out of `bytes`.
pub fn read_bytes_at(bytes: &Vec<u8>, off: usize, len: usize) -> (r: Vec<u8>)
    requires
        off + len <= bytes@.len(),
    ensures
        r@ == bytes@.subrange(off as int, off + len),
{
    let blen: usize = bytes.len();
    slice_to_vec(slice_subrange(bytes.as_slice(), off, off + len))
}

/// A vector of `n` zero bytes.
pub fn zeros(n: usize) -> (r: Vec<u8>)
    ensures
        r@ == spec_zeros(n as int),
{
    let mut v: Vec<u8> = Vec::new();
    let mut i: usize = 0;
    while i < n
        invariant
            i <= n,
            v@ =~= spec_zeros(i as int),
        decreases n - i,
    {
        v.push(0u8);
        i = i + 1;
        proof {
            assert(v@ =~= spec_zeros(i as int));
        }
    }
    v
}

/// Reading a word back after writing it returns the written value; stated for
/// byte sequences so that callers can move between page images.
pub proof fn lemma_word_round_trip(x: u64)
    ensures
        spec_u64_to_le_bytes(x).len() == 8,
        spec_u64_from_le_bytes(spec_u64_to_le_bytes(x)) == x,
{
    lemma_auto_spec_u64_to_from_le_bytes();
}

/// A word read depends only on the bytes `off..off + 8`: two sequences that
/// agree there yield the same word.
pub proof fn lemma_word_at_frame(s1: Seq<u8>, s2: Seq<u8>, off: int)
    requires
        0 <= off,
        off + 8 <= s1.len(),
        off + 8 <= s2.len(),
        forall|i: int| off <= i < off + 8 ==> s1[i] == s2[i],
    ensures
        spec_word_at(s1, off) == spec_word_at(s2, off),
{
    assert(s1.subrange(off, off + 8) =~= s2.subrange(off, off + 8));
}

/// The zero word sits at every offset of an all-zero sequence.
pub proof fn lemma_word_at_zeros(n: int, off: int)
    requires
        0 <= off,
        off + 8 <= n,
    ensures
        spec_word_at(spec_zeros(n), off) == 0u64,
{
    lemma_auto_spec_u64_to_from_le_bytes();
    spec_u64_to_le_bytes_to_open(0u64);
    assert(spec_u64_to_le_bytes(0u64) =~= spec_zeros(n).subrange(off, off + 8)) by {
        assert((0u64 & 0xff) as u8 == 0u8) by (bit_vector);
        assert((0u64 >> 8u64 & 0xff) as u8 == 0u8) by (bit_vector);
        assert((0u64 >> 16u64 & 0xff) as u8 == 0u8) by (bit_vector);
        assert((0u64 >> 24u64 & 0xff) as u8 == 0u8) by (bit_vector);
        assert((0u64 >> 32u64 & 0xff) as u8 == 0u8) by (bit_vector);
        assert((0u64 >> 40u64 & 0xff) as u8 == 0u8) by (bit_vector);
        assert((0u64 >> 48u64 & 0xff) as u8 == 0u8) by (bit_vector);
        assert((0u64 >> 56u64 & 0xff) as u8 == 0u8) by (bit_vector);
    }
}

} // verus!
