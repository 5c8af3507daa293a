//! Working-set measurement over the Linux idle-page tracking facility.
//!
//! The crate samples how a running process (or the whole host) uses its
//! memory: which pages are resident, swapped or absent, which were touched
//! during an observation window, and optionally which hold only zero bytes.
//! The kernel side of the protocol lives in a handful of pseudo-files
//! (`pagemap`, `kpageflags`, the idle bitmap); this library holds the logic
//! that plans the accesses to those files and condenses their answers into
//! one 64-bit flag word per page.

use vstd::prelude::*;

pub mod compose;
pub mod evict;
pub mod idle;
pub mod reader;
pub mod segments;
pub mod stats;
pub mod text;
pub mod words;

verus! {

/// Size of one page in bytes.
pub const PAGE_SIZE: usize = 4096;

/// Virtual segments smaller than this are ignored when sampling a process.
pub const SEGMENT_THRESHOLD: usize = 100 * 1024 * 1024;

/// First address past the canonical user half of a 64-bit address space.
pub const USERSPACE_END: u64 = 0xffff_8000_0000_0000;

/// Kernel-defined: the page sits on an LRU reclaim list (kpageflags).
pub const LRU_PAGE_BIT: u8 = 5;

/// Derived: the page held only zero bytes when its contents were inspected.
pub const ZERO_PAGE_BIT: u8 = 57;

/// Derived: the page was touched during the observation window.
pub const ACTIVE_PAGE_BIT: u8 = 58;

/// The page is paged out to swap (pagemap).
pub const SWAPPED_PAGE_BIT: u8 = 62;

/// The page is backed by physical memory right now (pagemap).
pub const PRESENT_PAGE_BIT: u8 = 63;

pub const LRU_PAGE_MASK: u64 = 1u64 << 5;

pub const ZERO_PAGE_MASK: u64 = 1u64 << 57;

pub const ACTIVE_PAGE_MASK: u64 = 1u64 << 58;

pub const SWAPPED_PAGE_MASK: u64 = 1u64 << 62;

pub const PRESENT_PAGE_MASK: u64 = 1u64 << 63;

/// Bits 0-62 of a pagemap word. For a resident page they are discarded and
/// reused to carry the derived flags; bit 63 alone survives unchanged.
pub const DERIVED_FIELD_MASK: u64 = 0x7FFF_FFFF_FFFF_FFFF;

/// Whether bit `b` of `w` is set.
pub open spec fn bit_set(w: u64, b: u64) -> bool
    recommends
        b < 64,
{
    w & (1u64 << b) != 0
}

/// A pagemap word of a page that is backed by physical memory.
pub open spec fn is_present(w: u64) -> bool {
    bit_set(w, 63)
}

/// A pagemap word of a page that sits in swap.
pub open spec fn is_swapped(w: u64) -> bool {
    bit_set(w, 62)
}

/// A kpageflags word of a page on an LRU reclaim list.
pub open spec fn is_lru(w: u64) -> bool {
    bit_set(w, 5)
}

/// One sampled range of the target address space: where it starts and the
/// composed flag word of each of its pages.
pub struct Segment {
    pub addr_start: usize,
    pub page_flags: Vec<u64>,
}

/// Everything one sampling cycle learned: when the harvest happened and the
/// flag words of every sampled segment.
pub struct ProcessMemory {
    pub timestamp: i64,
    pub segments: Vec<Segment>,
}

/// Relies on chrono's `Utc::now`, reduced to whole seconds since the Unix
/// epoch. The result depends on the wall clock, so nothing is promised of it.
#[verifier::external_body]
fn current_unix_seconds() -> i64 {
    chrono::Utc::now().timestamp()
}

impl ProcessMemory {
    /// An empty result stamped with the current wall-clock time; segments are
    /// pushed as they are composed.
    pub fn new_now() -> (r: ProcessMemory)
        ensures
            r.segments@.len() == 0,
    {
        ProcessMemory { timestamp: current_unix_seconds(), segments: Vec::new() }
    }

    pub fn push_segment(&mut self, s: Segment)
        ensures
            final(self).timestamp == old(self).timestamp,
            final(self).segments@ == old(self).segments@.push(s),
    {
        self.segments.push(s);
    }
}

} // verus!
