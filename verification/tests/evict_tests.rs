use mem_analyze::evict::{select_idle_page_indices, select_pageout_addresses};
use mem_analyze::Segment;

const PRESENT: u64 = 1 << 63;
const ACTIVE: u64 = 1 << 58;

fn segment() -> Segment {
    Segment {
        addr_start: 0x7f2a00000000,
        page_flags: vec![
            PRESENT,          // 0: idle resident
            PRESENT | ACTIVE, // 1: touched
            0,                // 2: absent
            PRESENT,          // 3: idle resident
            1 << 62,          // 4: swapped
            PRESENT,          // 5: idle resident
        ],
    }
}

#[test]
fn idle_indices_are_exact() {
    let idxs = select_idle_page_indices(&segment());
    assert_eq!(idxs, vec![0, 3, 5]);
}

#[test]
fn pageout_addresses_are_idle_pages() {
    let seg = segment();
    let addrs = select_pageout_addresses(&seg, 2);
    assert_eq!(addrs.len(), 2);
    let allowed: Vec<usize> = vec![0, 3, 5]
        .into_iter()
        .map(|i: usize| seg.addr_start + i * 4096)
        .collect();
    for a in &addrs {
        assert!(allowed.contains(a), "{:#x} is not an idle page address", a);
    }
    // Sampling without repetition: two requested, two distinct.
    assert_ne!(addrs[0], addrs[1]);
}

#[test]
fn pageout_caps_at_available_idle_pages() {
    let seg = segment();
    let addrs = select_pageout_addresses(&seg, 100);
    assert_eq!(addrs.len(), 3);
    let mut sorted = addrs.clone();
    sorted.sort();
    assert_eq!(
        sorted,
        vec![seg.addr_start, seg.addr_start + 3 * 4096, seg.addr_start + 5 * 4096]
    );
}

#[test]
fn pageout_of_zero_pages_is_empty() {
    let addrs = select_pageout_addresses(&segment(), 0);
    assert!(addrs.is_empty());
}
