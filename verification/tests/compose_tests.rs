use mem_analyze::compose::{compose_host_segment, compose_host_word, compose_process_segment, compose_process_word};

const PRESENT: u64 = 1 << 63;
const SWAPPED: u64 = 1 << 62;
const ACTIVE: u64 = 1 << 58;
const ZERO: u64 = 1 << 57;
const LRU: u64 = 1 << 5;

/// An idle bitmap where every frame is idle (as right after priming).
fn all_idle(bytes: usize) -> Vec<u8> {
    vec![0xff; bytes]
}

#[test]
fn process_resident_page_keeps_only_derived_bits() {
    let idlemap = all_idle(64);
    // A resident page whose PFN slice carries frame 17.
    let w = PRESENT | 17;
    let out = compose_process_word(w, &idlemap, false);
    assert_eq!(out, PRESENT);
}

#[test]
fn process_touched_page_gets_active_bit() {
    let mut idlemap = all_idle(64);
    // Clear the idle bit of frame 17: byte 2, bit 1.
    idlemap[2] &= !(1u8 << 1);
    let w = PRESENT | 17;
    let out = compose_process_word(w, &idlemap, false);
    assert_eq!(out, PRESENT | ACTIVE);
}

#[test]
fn process_zero_page_gets_zero_bit() {
    let idlemap = all_idle(64);
    let w = PRESENT | 300;
    let out = compose_process_word(w, &idlemap, true);
    assert_eq!(out, PRESENT | ZERO);
}

#[test]
fn process_non_resident_word_passes_through() {
    let idlemap = all_idle(8);
    // Bit 63 clear: everything else must survive verbatim.
    let w = 0x00ff_1234_5678_9abc;
    assert_eq!(compose_process_word(w, &idlemap, true), w);
}

#[test]
fn process_swapped_word_passes_through() {
    let idlemap = all_idle(8);
    // A typical swapped encoding: bit 62 set, bit 63 clear, swap offset bits.
    let w = SWAPPED | 0x1234;
    assert_eq!(compose_process_word(w, &idlemap, true), w);
}

#[test]
fn process_segment_of_resident_pages() {
    // One 400 MiB anonymous region, every page resident, primed then
    // harvested at once: 102400 words, each present, no other bit.
    let pages = 102400usize;
    let mut pagemap = Vec::with_capacity(pages);
    for i in 0..pages {
        pagemap.push(PRESENT | i as u64);
    }
    let idlemap = all_idle(pages / 8 + 1);
    let zeroes = vec![false; pages];
    let out = compose_process_segment(&pagemap, &idlemap, false, &zeroes);
    assert_eq!(out.len(), pages);
    for w in &out {
        assert_eq!(*w, PRESENT);
    }
}

#[test]
fn process_segment_every_16th_page_touched() {
    // The target wrote to every 16th page during the window: those frames
    // lost their idle bit and must come back active.
    let pages = 64usize;
    let mut pagemap = Vec::with_capacity(pages);
    for i in 0..pages {
        pagemap.push(PRESENT | i as u64);
    }
    let mut idlemap = all_idle(pages / 8);
    for pfn in (0..pages).step_by(16) {
        idlemap[pfn / 8] &= !(1u8 << (pfn % 8));
    }
    // Pages 3 and 19 hold only zero bytes; 19 is also touched.
    let mut zeroes = vec![false; pages];
    zeroes[3] = true;
    zeroes[19] = true;
    let out = compose_process_segment(&pagemap, &idlemap, true, &zeroes);
    for i in 0..pages {
        let mut expect = PRESENT;
        if i % 16 == 0 {
            expect |= ACTIVE;
        }
        if i == 3 || i == 19 {
            expect |= ZERO;
        }
        assert_eq!(out[i], expect, "page {}", i);
    }
}

#[test]
fn process_segment_with_hole_passes_raw_word() {
    // A 4 KiB unmapped hole at byte offset 8 MiB is page index 2048; its raw
    // pagemap word survives and its neighbours are sampled normally.
    let pages = 4096usize;
    let mut pagemap = Vec::with_capacity(pages);
    for i in 0..pages {
        if i == 2048 {
            pagemap.push(0);
        } else {
            pagemap.push(PRESENT | i as u64);
        }
    }
    let idlemap = all_idle(pages / 8);
    let zeroes = vec![false; pages];
    let out = compose_process_segment(&pagemap, &idlemap, false, &zeroes);
    assert_eq!(out[2048], 0);
    assert_eq!(out[2047], PRESENT);
    assert_eq!(out[2049], PRESENT);
}

#[test]
fn process_segment_with_swapped_page() {
    let pages = 8usize;
    let mut pagemap = Vec::with_capacity(pages);
    for i in 0..pages {
        pagemap.push(PRESENT | i as u64);
    }
    pagemap[5] = SWAPPED | 0xbeef;
    let idlemap = all_idle(8);
    let zeroes = vec![false; pages];
    let out = compose_process_segment(&pagemap, &idlemap, false, &zeroes);
    assert_eq!(out[5], SWAPPED | 0xbeef);
    assert_eq!(out[5] & PRESENT, 0);
}

#[test]
fn host_non_lru_page_never_active() {
    // Whatever the idle bitmap says, a page off the LRU cannot be active.
    let idlemap = vec![0u8; 64];
    let w = 0x48; // some kpageflags without bit 5
    let out = compose_host_word(w, 100, &idlemap, false, false);
    assert_eq!(out & ACTIVE, 0);
    assert_eq!(out, w);
}

#[test]
fn host_lru_page_active_when_idle_bit_clear() {
    let mut idlemap = all_idle(64);
    idlemap[12] &= !(1u8 << 4); // frame 100 was touched
    let w = LRU | 0x40;
    let out = compose_host_word(w, 100, &idlemap, false, false);
    assert_eq!(out, w | ACTIVE);
}

#[test]
fn host_inherited_active_bit_is_cleared() {
    // Bit 58 is always recomputed, never inherited.
    let idlemap = all_idle(64);
    let w = LRU | ACTIVE;
    let out = compose_host_word(w, 7, &idlemap, false, false);
    assert_eq!(out & ACTIVE, 0);
}

#[test]
fn host_two_ram_ranges_recompute_active_only() {
    // Two RAM ranges; kpageflags words survive except for the recomputed
    // bit 58, gated on LRU (bit 5).
    let starts = [0x1000usize, 0x100000000usize];
    let pages = 16usize;
    let mut kpageflags = Vec::with_capacity(pages);
    for i in 0..pages {
        // Alternate LRU on and off, with some other kernel bits.
        let lru = if i % 2 == 0 { LRU } else { 0 };
        kpageflags.push(lru | 0x840 | (1 << 20));
    }
    // Everything idle: no page becomes active.
    let idlemap = all_idle(0x200000000 / 4096 / 8 + 8);
    let zeroes = vec![false; pages];
    for &start in &starts {
        let out = compose_host_segment(&kpageflags, start, &idlemap, false, &zeroes);
        assert_eq!(out.len(), pages);
        for i in 0..pages {
            assert_eq!(out[i], kpageflags[i], "page {} of range {:#x}", i, start);
        }
    }
}

#[test]
fn host_zero_kpageflags_keeps_zero_bit_clear() {
    // A frame whose kpageflags word is zero is never content-inspected, so
    // bit 57 stays clear even when inspection is on.
    let idlemap = all_idle(64);
    let out = compose_host_word(0, 42, &idlemap, true, true);
    assert_eq!(out & ZERO, 0);
    assert_eq!(out, 0);
}

#[test]
fn host_zero_bit_set_for_inspected_zero_page() {
    let idlemap = all_idle(64);
    let w = LRU;
    let out = compose_host_word(w, 42, &idlemap, true, true);
    assert_eq!(out, w | ZERO);
}
