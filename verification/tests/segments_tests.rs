use mem_analyze::segments::{
    filter_virtual_segments, parse_line_region, parse_segment_addresses,
    physical_regions_from_lines, virtual_regions_from_lines, MemRegion,
};

fn lines(texts: &[&str]) -> Vec<Vec<u8>> {
    texts.iter().map(|t| t.as_bytes().to_vec()).collect()
}

#[test]
fn maps_line_parses_half_open() {
    let line = b"7f2a00000000-7f2a40000000 rw-p 00000000 00:00 0".to_vec();
    let rg = parse_line_region(&line, false).expect("line should parse");
    assert_eq!(rg.start_address, 0x7f2a00000000);
    assert_eq!(rg.size, 0x40000000);
}

#[test]
fn iomem_line_parses_inclusive() {
    let line = b"00100000-7fffffff : System RAM".to_vec();
    let rg = parse_line_region(&line, true).expect("line should parse");
    assert_eq!(rg.start_address, 0x100000);
    assert_eq!(rg.size, 0x7fffffff - 0x100000 + 1);
}

#[test]
fn unparsable_lines_are_skipped() {
    let input = lines(&[
        "7f2a00000000-7f2a40000000 rw-p",
        "no addresses here",
        "deadbeef",
        "1000-1fff : not page sized end",
        "ffffffffffffffffffff-ffffffffffffffffffffff too big",
        "7f2a50000000-7f2a50001000 r--p",
    ]);
    let regions = parse_segment_addresses(&input, false);
    assert_eq!(regions.len(), 2);
    assert_eq!(regions[0].start_address, 0x7f2a00000000);
    assert_eq!(regions[1].start_address, 0x7f2a50000000);
}

#[test]
fn parsed_regions_cover_whole_pages() {
    let input = lines(&[
        "00001000-0009ffff : System RAM",
        "000a0000-000bffff : PCI Bus",
        "00100000-bfffffff : System RAM",
    ]);
    for inclusive in [true, false] {
        for rg in parse_segment_addresses(&input, inclusive) {
            assert_eq!(rg.start_address % 4096, 0);
            assert_eq!(rg.size % 4096, 0);
            assert!(rg.size >= 4096);
        }
    }
}

#[test]
fn misaligned_range_is_dropped() {
    // 0x800 is not a page boundary.
    let line = b"00000800-00001fff : System RAM".to_vec();
    assert!(parse_line_region(&line, true).is_none());
    // Aligned start, but a half-open size that is not page-sized.
    let line2 = b"00001000-00001800 rw-p".to_vec();
    assert!(parse_line_region(&line2, false).is_none());
}

#[test]
fn empty_range_is_dropped() {
    let line = b"7f2a00000000-7f2a00000000 rw-p".to_vec();
    assert!(parse_line_region(&line, false).is_none());
}

#[test]
fn maps_round_trip() {
    // A region formatted the way the kernel prints it parses back to the
    // same pair.
    let start = 0x7f2a00000000usize;
    let size = 0x19000000usize;
    let printed = format!("{:x}-{:x} rw-p 00000000 00:00 0", start, start + size);
    let rg = parse_line_region(&printed.into_bytes(), false).expect("round trip");
    assert_eq!(rg.start_address, start);
    assert_eq!(rg.size, size);
}

#[test]
fn virtual_filter_keeps_large_userspace_segments() {
    let big_low = MemRegion { start_address: 0x7f2a00000000, size: 200 * 1024 * 1024 };
    let small_low = MemRegion { start_address: 0x7f2a00000000, size: 4096 };
    let big_high = MemRegion { start_address: 0xffff_9000_0000_0000, size: 200 * 1024 * 1024 };
    let threshold = MemRegion { start_address: 0x1000, size: 100 * 1024 * 1024 };
    let kept = filter_virtual_segments(&vec![big_low, small_low, big_high, threshold]);
    assert_eq!(kept.len(), 2);
    assert_eq!(kept[0], big_low);
    assert_eq!(kept[1], threshold);
}

#[test]
fn physical_regions_keep_only_system_ram() {
    let input = lines(&[
        "00001000-0009efff : System RAM",
        "000a0000-000bffff : PCI Bus 0000:00",
        "  000c0000-000c7fff : Video ROM",
        "00100000-bfffffff : System RAM",
        "100000000-1ffffffff : System RAM",
    ]);
    let regions = physical_regions_from_lines(&input);
    assert_eq!(regions.len(), 3);
    assert_eq!(regions[0].start_address, 0x1000);
    assert_eq!(regions[0].size, 0x9f000 - 0x1000);
    assert_eq!(regions[1].start_address, 0x100000);
    assert_eq!(regions[2].start_address, 0x100000000);
    assert_eq!(regions[2].size, 0x100000000);
}

#[test]
fn virtual_regions_use_half_open_sizes() {
    let input = lines(&["00400000-00800000 r-xp 00000000 08:01 1234 /bin/thing"]);
    let regions = virtual_regions_from_lines(&input);
    assert_eq!(regions.len(), 1);
    assert_eq!(regions[0].size, 0x400000);
}

#[test]
fn iomem_indented_line_still_parses() {
    // Leading whitespace before the addresses is tolerated.
    let line = b"  00100000-004fffff : Kernel code".to_vec();
    let rg = parse_line_region(&line, true).expect("indented line");
    assert_eq!(rg.start_address, 0x100000);
}
