use mem_analyze::stats::{page_analytics, swap_for_segment, swap_usage_total};
use mem_analyze::text::hex_digits;
use mem_analyze::{ProcessMemory, Segment};

const PRESENT: u64 = 1 << 63;
const ACTIVE: u64 = 1 << 58;
const ZERO: u64 = 1 << 57;
const LRU: u64 = 1 << 5;

fn cycle(segments: Vec<Segment>) -> ProcessMemory {
    let mut memory = ProcessMemory::new_now();
    for s in segments {
        memory.push_segment(s);
    }
    memory
}

#[test]
fn timestamp_is_recent() {
    let memory = cycle(vec![]);
    // Any sane clock is well past the year 2001.
    assert!(memory.timestamp > 1_000_000_000);
    assert_eq!(memory.segments.len(), 0);
}

#[test]
fn counts_over_two_segments() {
    let memory = cycle(vec![
        Segment {
            addr_start: 0x1000,
            page_flags: vec![PRESENT | ACTIVE, PRESENT | ZERO, PRESENT, LRU | ACTIVE],
        },
        Segment { addr_start: 0x100000, page_flags: vec![0, LRU, PRESENT | ACTIVE | ZERO] },
    ]);
    let counts = page_analytics(&memory);
    assert_eq!(counts.total, 7);
    assert_eq!(counts.lru, 2);
    assert_eq!(counts.zero, 2);
    assert_eq!(counts.active, 3);
    assert_eq!(counts.present, 4);
}

#[test]
fn counts_of_empty_cycle() {
    let counts = page_analytics(&cycle(vec![]));
    assert_eq!(counts.total, 0);
    assert_eq!(counts.present, 0);
}

#[test]
fn hex_digits_format_like_the_kernel() {
    assert_eq!(hex_digits(0), b"0".to_vec());
    assert_eq!(hex_digits(0x7f2a00000000), b"7f2a00000000".to_vec());
    assert_eq!(hex_digits(0xdeadbeef), b"deadbeef".to_vec());
    assert_eq!(hex_digits(16), b"10".to_vec());
}

fn smaps_text() -> Vec<u8> {
    let text = "7f2a00000000-7f2a40000000 rw-p 00000000 00:00 0\n\
Size:            1048576 kB\n\
Rss:              524288 kB\n\
Swap:            3237444 kB\n\
7f2a50000000-7f2a50001000 r--p 00000000 00:00 0\n\
Size:                  4 kB\n\
Swap:                  8 kB\n";
    text.as_bytes().to_vec()
}

#[test]
fn swap_read_from_matching_block() {
    let smaps = smaps_text();
    let segment = Segment { addr_start: 0x7f2a00000000, page_flags: vec![] };
    assert_eq!(swap_for_segment(&smaps, &segment), Some(3237444 << 10));
    let second = Segment { addr_start: 0x7f2a50000000, page_flags: vec![] };
    assert_eq!(swap_for_segment(&smaps, &second), Some(8 << 10));
}

#[test]
fn swap_missing_block_is_none() {
    let smaps = smaps_text();
    let segment = Segment { addr_start: 0x500000000000, page_flags: vec![] };
    assert_eq!(swap_for_segment(&smaps, &segment), None);
}

#[test]
fn swap_block_without_swap_line_is_none() {
    let smaps = b"7f2a00000000-7f2a40000000 rw-p\nSize: 8 kB\n".to_vec();
    let segment = Segment { addr_start: 0x7f2a00000000, page_flags: vec![] };
    assert_eq!(swap_for_segment(&smaps, &segment), None);
}

#[test]
fn swap_unparsable_amount_is_none() {
    let smaps = b"7f2a00000000-7f2a40000000 rw-p\nSwap: lots kB\n".to_vec();
    let segment = Segment { addr_start: 0x7f2a00000000, page_flags: vec![] };
    assert_eq!(swap_for_segment(&smaps, &segment), None);
}

#[test]
fn swap_total_sums_every_segment() {
    let smaps = smaps_text();
    let memory = cycle(vec![
        Segment { addr_start: 0x7f2a00000000, page_flags: vec![] },
        Segment { addr_start: 0x7f2a50000000, page_flags: vec![] },
    ]);
    assert_eq!(swap_usage_total(&smaps, &memory), Some((3237444u64 << 10) + (8 << 10)));
}

#[test]
fn swap_total_fails_on_missing_segment() {
    let smaps = smaps_text();
    let memory = cycle(vec![
        Segment { addr_start: 0x7f2a00000000, page_flags: vec![] },
        Segment { addr_start: 0x123400000000, page_flags: vec![] },
    ]);
    assert_eq!(swap_usage_total(&smaps, &memory), None);
}
