//! Page identifier algebra: a 64-bit page id is a segment number in the high
//! bits and an offset within that segment in the low `PAGE_BITS` bits.

use vstd::prelude::*;

verus! {

/// Size of a page in bytes.
pub const PAGE_SIZE: usize = 4096;

/// How many low bits of a page id address a page within its segment; the
/// remaining high bits name the segment.
pub const PAGE_BITS: u64 = 32;

/// Number of pages a segment can hold: `1 << PAGE_BITS`.
pub const SEGMENT_PAGES: u64 = 0x1_0000_0000;

proof fn lemma_join_bits(s: u64, p: u64)
    by (bit_vector)
    requires
        s < 0x1_0000_0000u64,
        p < 0x1_0000_0000u64,
    ensures
        ((s << 32u64) | p) == s * 0x1_0000_0000u64 + p,
        (((s << 32u64) | p) >> 32u64) == s,
        (((s << 32u64) | p) & 0xffff_ffffu64) == p,
{
}

proof fn lemma_split_bits(n: u64)
    by (bit_vector)
    ensures
        (n >> 32u64) < 0x1_0000_0000u64,
        (n & 0xffff_ffffu64) < 0x1_0000_0000u64,
        n == (n >> 32u64) * 0x1_0000_0000u64 + (n & 0xffff_ffffu64),
{
}

/// Compose a page id from a segment number and an offset within the segment.
pub fn join_segment(segment: u64, page: u64) -> (r: u64)
    requires
        segment < SEGMENT_PAGES,
        page < SEGMENT_PAGES,
    ensures
        r == segment * SEGMENT_PAGES + page,
{
    proof {
        lemma_join_bits(segment, page);
    }
    (segment << PAGE_BITS) | page
}

/// Decompose a page id into its segment number and its offset within the
/// segment.
pub fn split_segment(num: u64) -> (r: (u64, u64))
    ensures
        r.0 < SEGMENT_PAGES,
        r.1 < SEGMENT_PAGES,
        num == r.0 * SEGMENT_PAGES + r.1,
{
    proof {
        lemma_split_bits(num);
    }
    (num >> PAGE_BITS, num & 0xffff_ffffu64)
}

} // verus!
