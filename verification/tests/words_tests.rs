use mem_analyze::segments::MemRegion;
use mem_analyze::words::{decode_segment_words, get_kpageflags, get_pagemap, segment_byte_len, segment_word_offset};

#[test]
fn decode_is_little_endian() {
    let bytes = vec![
        0x01, 0x00, 0x00, 0x00, 0x00, 0x00, 0x00, 0x00, // 1
        0xbc, 0x9a, 0x78, 0x56, 0x34, 0x12, 0x00, 0x00, // 0x123456789abc
    ];
    let words = decode_segment_words(&bytes);
    assert_eq!(words, vec![1, 0x123456789abc]);
}

#[test]
fn decode_keeps_word_order() {
    let mut bytes = vec![0u8; 32];
    bytes[0] = 4;
    bytes[8] = 3;
    bytes[16] = 2;
    bytes[31] = 0x80; // highest byte of the last word
    let words = decode_segment_words(&bytes);
    assert_eq!(words, vec![4, 3, 2, 0x8000_0000_0000_0000]);
}

#[test]
fn pagemap_window_per_segment() {
    let rg = MemRegion { start_address: 0x40000000, size: 3 * 4096 };
    assert_eq!(segment_word_offset(&rg), (0x40000000 / 4096) * 8);
    assert_eq!(segment_byte_len(&rg), 24);
    let bytes = vec![0u8; 24];
    assert_eq!(get_pagemap(&rg, &bytes).len(), 3);
    assert_eq!(get_kpageflags(&rg, &bytes).len(), 3);
}

#[test]
fn pagemap_words_decode_flag_bits() {
    let rg = MemRegion { start_address: 0, size: 4096 };
    // Little-endian: bit 63 lives in the last byte of the word.
    let bytes = vec![0x2a, 0, 0, 0, 0, 0, 0, 0x80];
    let words = get_pagemap(&rg, &bytes);
    assert_eq!(words, vec![(1 << 63) | 0x2a]);
}
