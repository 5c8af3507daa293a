//! Condensing one page's kernel state into one output flag word.
//!
//! A process is sampled through its pagemap words, the host through its
//! kpageflags words. Either way the observation window contributes an
//! active bit (the frame's idle bit was cleared during the window) and, when
//! contents were inspected, a zero bit; both land in bit positions the
//! output word reserves for derived state.

use vstd::prelude::*;

verus! {

use crate::ACTIVE_PAGE_MASK;
use crate::DERIVED_FIELD_MASK;
use crate::PAGE_SIZE;
use crate::ZERO_PAGE_MASK;
use crate::bit_set;
use crate::idle::get_active_add;
use crate::idle::spec_active_add;
use crate::is_lru;
use crate::is_present;
use crate::is_swapped;

/// The flag word of one virtual page, composed from its pagemap word `w`.
/// A page that is absent or swapped keeps its raw word. A resident page
/// keeps only its present bit; the rest of the word is replaced by the
/// derived active and zero bits.
pub open spec fn spec_compose_process(w: u64, idlemap: Seq<u8>, zero: bool) -> u64 {
    if !is_present(w) {
        w
    } else if is_swapped(w) {
        w
    } else {
        ((w & !DERIVED_FIELD_MASK) | spec_active_add(idlemap, w & DERIVED_FIELD_MASK)) | (if zero {
            ZERO_PAGE_MASK
        } else {
            0u64
        })
    }
}

/// The flag word of one physical page, composed from its kpageflags word
/// `w`. The kernel flags are preserved; the active bit is always recomputed,
/// and only an LRU page can be active. The zero bit is added only when
/// contents were inspected, which requires a non-zero kpageflags word.
pub open spec fn spec_compose_host(
    w: u64,
    pfn: u64,
    idlemap: Seq<u8>,
    inspect: bool,
    zero: bool,
) -> u64 {
    ((w & !ACTIVE_PAGE_MASK) | (if is_lru(w) {
        spec_active_add(idlemap, pfn)
    } else {
        0u64
    })) | (if inspect && w != 0 && zero {
        ZERO_PAGE_MASK
    } else {
        0u64
    })
}

/// Compose the output word of one page sampled through the process pagemap.
/// `zero` says whether a content inspection found the page all-zero; callers
/// pass `false` when no inspection ran.
pub fn compose_process_word(w: u64, idlemap: &[u8], zero: bool) -> (r: u64)
    requires
        is_present(w) && !is_swapped(w) ==> (w & DERIVED_FIELD_MASK) / 8 < idlemap@.len(),
    ensures
        r == spec_compose_process(w, idlemap@, zero),
        !is_present(w) ==> r == w,
        is_present(w) && is_swapped(w) ==> r == w,
        is_present(w) && !is_swapped(w) ==> r & DERIVED_FIELD_MASK == (spec_active_add(
            idlemap@,
            w & DERIVED_FIELD_MASK,
        ) | (if zero {
            ZERO_PAGE_MASK
        } else {
            0u64
        })),
        is_present(w) && !is_swapped(w) ==> is_present(r) && !is_swapped(r),
{
    if w & (1u64 << 63) == 0 {
        w
    } else if w & (1u64 << 62) != 0 {
        w
    } else {
        let active_add = get_active_add(w & DERIVED_FIELD_MASK, idlemap);
        let zero_add: u64 = if zero {
            ZERO_PAGE_MASK
        } else {
            0u64
        };
        let r = ((w & !DERIVED_FIELD_MASK) | active_add) | zero_add;
        proof {
            let a = spec_active_add(idlemap@, w & DERIVED_FIELD_MASK);
            let z: u64 = if zero {
                ZERO_PAGE_MASK
            } else {
                0u64
            };
            assert((a == 0u64 || a == 1u64 << 58) && (z == 0u64 || z == 1u64 << 57) && w & (1u64
                << 63) != 0 && w & (1u64 << 62) == 0 ==> (((w & !0x7FFF_FFFF_FFFF_FFFFu64) | a) | z)
                & 0x7FFF_FFFF_FFFF_FFFFu64 == (a | z) && (((w & !0x7FFF_FFFF_FFFF_FFFFu64) | a) | z)
                & (1u64 << 63) != 0 && (((w & !0x7FFF_FFFF_FFFF_FFFFu64) | a) | z) & (1u64 << 62)
                == 0) by (bit_vector);
        }
        r
    }
}

/// Compose the output word of one physical page sampled through kpageflags.
/// `pfn` is the page's global frame number; `zero` says whether a content
/// inspection found the page all-zero.
pub fn compose_host_word(w: u64, pfn: u64, idlemap: &[u8], inspect: bool, zero: bool) -> (r: u64)
    requires
        is_lru(w) ==> pfn / 8 < idlemap@.len(),
    ensures
        r == spec_compose_host(w, pfn, idlemap@, inspect, zero),
        !is_lru(w) ==> !bit_set(r, 58),
        inspect && w != 0 && zero ==> bit_set(r, 57),
{
    let active_add: u64 = if w & (1u64 << 5) == 0 {
        0u64
    } else {
        get_active_add(pfn, idlemap)
    };
    let zero_add: u64 = if inspect && w != 0 && zero {
        ZERO_PAGE_MASK
    } else {
        0u64
    };
    let r = ((w & !ACTIVE_PAGE_MASK) | active_add) | zero_add;
    proof {
        let a = active_add;
        let z = zero_add;
        assert((a == 0u64 || a == 1u64 << 58) && (z == 0u64 || z == 1u64 << 57) ==> (a == 0u64
            ==> (((w & !(1u64 << 58)) | a) | z) & (1u64 << 58) == 0) && (z == 1u64 << 57 ==> (((w
            & !(1u64 << 58)) | a) | z) & (1u64 << 57) != 0)) by (bit_vector);
    }
    r
}

/// Compose a whole process segment: one output word per pagemap word.
/// `zeroes[i]` reports the content inspection of page `i`; it only matters
/// when `inspect` is set and the page is resident and not swapped.
pub fn compose_process_segment(
    pagemap: &Vec<u64>,
    idlemap: &Vec<u8>,
    inspect: bool,
    zeroes: &Vec<bool>,
) -> (r: Vec<u64>)
    requires
        zeroes@.len() == pagemap@.len(),
        forall|i: int|
            0 <= i < pagemap@.len() && is_present(#[trigger] pagemap@[i]) && !is_swapped(
                pagemap@[i],
            ) ==> (pagemap@[i] & DERIVED_FIELD_MASK) / 8 < idlemap@.len(),
    ensures
        r@.len() == pagemap@.len(),
        forall|i: int|
            0 <= i < pagemap@.len() ==> r@[i] == spec_compose_process(
                pagemap@[i],
                idlemap@,
                inspect && zeroes@[i],
            ),
{
    let mut r: Vec<u64> = Vec::new();
    let n = pagemap.len();
    let mut i: usize = 0;
    while i < n
        invariant
            n == pagemap@.len(),
            zeroes@.len() == n,
            i <= n,
            r@.len() == i,
            forall|k: int|
                0 <= k < n && is_present(#[trigger] pagemap@[k]) && !is_swapped(pagemap@[k]) ==> (
                pagemap@[k] & DERIVED_FIELD_MASK) / 8 < idlemap@.len(),
            forall|k: int|
                0 <= k < i ==> r@[k] == spec_compose_process(
                    pagemap@[k],
                    idlemap@,
                    inspect && zeroes@[k],
                ),
        decreases n - i,
    {
        let w = pagemap[i];
        let z = inspect && zeroes[i];
        r.push(compose_process_word(w, idlemap.as_slice(), z));
        i = i + 1;
    }
    r
}

/// Compose a whole host segment that starts at physical address
/// `region_start`: one output word per kpageflags word.
pub fn compose_host_segment(
    kpageflags: &Vec<u64>,
    region_start: usize,
    idlemap: &Vec<u8>,
    inspect: bool,
    zeroes: &Vec<bool>,
) -> (r: Vec<u64>)
    requires
        zeroes@.len() == kpageflags@.len(),
        region_start as int / (PAGE_SIZE as int) + kpageflags@.len() <= usize::MAX,
        forall|i: int|
            0 <= i < kpageflags@.len() && is_lru(#[trigger] kpageflags@[i]) ==> (region_start as int
                / (PAGE_SIZE as int) + i) / 8 < idlemap@.len(),
    ensures
        r@.len() == kpageflags@.len(),
        forall|i: int|
            0 <= i < kpageflags@.len() ==> r@[i] == spec_compose_host(
                kpageflags@[i],
                (region_start as int / (PAGE_SIZE as int) + i) as u64,
                idlemap@,
                inspect,
                zeroes@[i],
            ),
{
    let mut r: Vec<u64> = Vec::new();
    let n = kpageflags.len();
    let base = region_start / PAGE_SIZE;
    let mut i: usize = 0;
    while i < n
        invariant
            n == kpageflags@.len(),
            zeroes@.len() == n,
            base == region_start as int / (PAGE_SIZE as int),
            base + n <= usize::MAX,
            i <= n,
            r@.len() == i,
            forall|k: int|
                0 <= k < n && is_lru(#[trigger] kpageflags@[k]) ==> (base + k) / 8
                    < idlemap@.len(),
            forall|k: int|
                0 <= k < i ==> r@[k] == spec_compose_host(
                    kpageflags@[k],
                    (base + k) as u64,
                    idlemap@,
                    inspect,
                    zeroes@[k],
                ),
        decreases n - i,
    {
        let w = kpageflags[i];
        let pfn = (base + i) as u64;
        proof {
            assert(is_lru(w) ==> pfn / 8 < idlemap@.len());
        }
        r.push(compose_host_word(w, pfn, idlemap.as_slice(), inspect, zeroes[i]));
        i = i + 1;
    }
    r
}

} // verus!
