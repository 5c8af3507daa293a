//! Planning the accesses to the kernel's idle bitmap.
//!
//! The bitmap holds one bit per page frame and the kernel serves it only in
//! 8-byte units, so every seek offset and every transfer length computed here
//! is a multiple of 8. The harvested bytes are kept in one dense vector
//! indexed by `pfn / 8`; bytes no physical segment covers stay zero, which
//! reads as "not idle".

use vstd::prelude::*;

verus! {

use crate::ACTIVE_PAGE_MASK;
use crate::PAGE_SIZE;
use crate::segments::MemRegion;

/// Bit `pfn % 8` of byte `pfn / 8`: set when the kernel considers the frame
/// idle, clear when the frame was touched (or lies outside the harvest).
pub open spec fn idle_bit(idlemap: Seq<u8>, pfn: u64) -> bool
    recommends
        pfn / 8 < idlemap.len(),
{
    idlemap[(pfn / 8) as int] & (1u8 << (pfn % 8)) != 0
}

/// The contribution of the idle bitmap to one output flag word: the active
/// mask when the frame's idle bit is clear, nothing when it is still set.
pub open spec fn spec_active_add(idlemap: Seq<u8>, pfn: u64) -> u64
    recommends
        pfn / 8 < idlemap.len(),
{
    if idle_bit(idlemap, pfn) {
        0
    } else {
        ACTIVE_PAGE_MASK
    }
}

/// The active-page mask if frame `pfn` was touched during the window, zero if
/// it stayed idle.
pub fn get_active_add(pfn: u64, idlemap: &[u8]) -> (r: u64)
    requires
        pfn / 8 < idlemap@.len(),
    ensures
        r == spec_active_add(idlemap@, pfn),
{
    let byte = idlemap[(pfn / 8) as usize];
    let shift = pfn % 8;
    proof {
        assert(pfn % 8 < 8) by (bit_vector);
    }
    if byte & (1u8 << shift) == 0 {
        ACTIVE_PAGE_MASK
    } else {
        0
    }
}

/// The smallest multiple of 8 that is at least `n`.
pub fn round_up_8(n: usize) -> (r: usize)
    requires
        1 <= n <= usize::MAX - 7,
    ensures
        r % 8 == 0,
        n <= r < n + 8,
        forall|m: int| #[trigger] (m % 8) == 0 && m >= n ==> r <= m,
{
    let low = (n - 1) | 7;
    proof {
        let x = (n - 1) as usize;
        assert(x <= (x | 7) && (x | 7) <= x + 7 && ((x | 7) % 8) == 7) by (bit_vector);
    }
    let r = low + 1;
    proof {
        assert(r % 8 == 0);
        assert forall|m: int| #[trigger] (m % 8) == 0 && m >= n implies r <= m by {
            if m < r {
                assert(r - 8 < m < r);
                assert((r - m) % 8 == 0) by {
                    vstd::arithmetic::div_mod::lemma_sub_mod_noop(r as int, m as int, 8);
                };
            }
        }
    }
    r
}

/// Where a read or write that covers `region`'s first frame must start inside
/// the idle bitmap: the frame's byte index, rounded down to an 8-byte unit.
/// The same value indexes the dense harvest vector.
pub fn idle_seek_offset(region: &MemRegion) -> (r: usize)
    ensures
        r == (((region.start_address as int / (PAGE_SIZE as int)) / 8) / 8) * 8,
        r % 8 == 0,
{
    (((region.start_address / PAGE_SIZE) / 8) / 8) * 8
}

/// How many bitmap bytes carry bits of `region`: one bit per page, rounded up
/// to whole bytes.
pub fn idle_bytes_for(region: &MemRegion) -> (r: usize)
    ensures
        r == (region.size as int / (PAGE_SIZE as int) + 7) / 8,
{
    (region.size / PAGE_SIZE + 8 - 1) / 8
}

/// How many bytes the next write of an all-ones priming pass should carry:
/// the rest of the segment, capped by the scratch buffer, rounded up to an
/// 8-byte unit.
pub fn prime_chunk_len(buf_len: usize, remaining: usize) -> (r: usize)
    requires
        1 <= buf_len,
        1 <= remaining <= usize::MAX - 7,
    ensures
        r % 8 == 0,
        r < buf_len + 8,
        if buf_len <= remaining {
            buf_len <= r < buf_len + 8
        } else {
            remaining <= r < remaining + 8
        },
{
    let step = if buf_len < remaining {
        buf_len
    } else {
        remaining
    };
    round_up_8(step)
}

/// How many bytes a harvest read of `region` transfers: its bitmap bytes,
/// rounded up to an 8-byte unit.
pub fn idle_load_len(region: &MemRegion) -> (r: usize)
    requires
        region.wf(),
    ensures
        r % 8 == 0,
        (region.size as int / (PAGE_SIZE as int) + 7) / 8 <= r,
        r < (region.size as int / (PAGE_SIZE as int) + 7) / 8 + 8,
{
    let bytes = idle_bytes_for(region);
    assert(bytes >= 1);
    round_up_8(bytes)
}

/// How large the dense harvest vector must be to cover every frame of the
/// last (highest) physical segment, one bit per frame.
pub fn idlemap_alloc_size(regions: &Vec<MemRegion>) -> (r: usize)
    requires
        regions@.len() >= 1,
        regions@.last().start_address + regions@.last().size + 1 <= usize::MAX,
    ensures
        r == (regions@.last().start_address + regions@.last().size + 1) / 32768,
{
    let last = &regions[regions.len() - 1];
    (last.start_address + last.size + 1) / (PAGE_SIZE * 8)
}

} // verus!
