//! Reading a segment's status words out of the kernel's per-page tables.
//!
//! `/proc/<pid>/pagemap` and `/proc/kpageflags` hold one little-endian
//! 64-bit word per page. The caller seeks to [`segment_word_offset`], reads
//! [`segment_byte_len`] bytes, and the decoders below turn them into words.

use byteorder::ByteOrder;
use vstd::prelude::*;

verus! {

use crate::PAGE_SIZE;
use crate::segments::MemRegion;
use vstd::bytes::spec_u64_from_le_bytes;

/// Relies on byteorder's `LittleEndian::read_u64_into`: every 8 input bytes
/// become one little-endian u64. It panics unless the lengths match, so the
/// caller sizes `words` first.
#[verifier::external_body]
fn read_le_words(bytes: &Vec<u8>, words: &mut Vec<u64>)
    requires
        bytes@.len() == old(words)@.len() * 8,
    ensures
        final(words)@.len() == old(words)@.len(),
        forall|i: int|
            0 <= i < final(words)@.len() ==> final(words)@[i] == spec_u64_from_le_bytes(
                bytes@.subrange(8 * i, 8 * i + 8),
            ),
{
    byteorder::LittleEndian::read_u64_into(bytes.as_slice(), words.as_mut_slice());
}

/// Decode the raw bytes of one segment's pagemap or kpageflags window into
/// words, one per page.
pub fn decode_segment_words(bytes: &Vec<u8>) -> (r: Vec<u64>)
    requires
        bytes@.len() % 8 == 0,
    ensures
        r@.len() * 8 == bytes@.len(),
        forall|i: int|
            0 <= i < r@.len() ==> r@[i] == spec_u64_from_le_bytes(
                bytes@.subrange(8 * i, 8 * i + 8),
            ),
{
    let count = bytes.len() / 8;
    let mut words: Vec<u64> = Vec::new();
    let mut i: usize = 0;
    while i < count
        invariant
            i <= count,
            words@.len() == i,
        decreases count - i,
    {
        words.push(0);
        i = i + 1;
    }
    read_le_words(bytes, &mut words);
    words
}

/// The words of one segment of `/proc/<pid>/pagemap`, given the bytes the
/// caller read at the segment's offset.
pub fn get_pagemap(region: &MemRegion, bytes: &Vec<u8>) -> (r: Vec<u64>)
    requires
        bytes@.len() == region.spec_pages() * 8,
        region.wf(),
    ensures
        r@.len() == region.spec_pages(),
        forall|i: int|
            0 <= i < r@.len() ==> r@[i] == spec_u64_from_le_bytes(
                bytes@.subrange(8 * i, 8 * i + 8),
            ),
{
    proof {
        lemma_pages_bytes_mod(region);
    }
    decode_segment_words(bytes)
}

/// The words of one segment of `/proc/kpageflags`, given the bytes the
/// caller read at the segment's offset.
pub fn get_kpageflags(region: &MemRegion, bytes: &Vec<u8>) -> (r: Vec<u64>)
    requires
        bytes@.len() == region.spec_pages() * 8,
        region.wf(),
    ensures
        r@.len() == region.spec_pages(),
        forall|i: int|
            0 <= i < r@.len() ==> r@[i] == spec_u64_from_le_bytes(
                bytes@.subrange(8 * i, 8 * i + 8),
            ),
{
    proof {
        lemma_pages_bytes_mod(region);
    }
    decode_segment_words(bytes)
}

proof fn lemma_pages_bytes_mod(region: &MemRegion)
    requires
        region.wf(),
    ensures
        (region.spec_pages() * 8) % 8 == 0,
        region.spec_pages() >= 1,
{
    assert((region.spec_pages() * 8) % 8 == 0) by (nonlinear_arith);
    assert(region.size as int / (PAGE_SIZE as int) >= 1) by (nonlinear_arith)
        requires
            region.size >= PAGE_SIZE,
            PAGE_SIZE == 4096usize,
    ;
}

/// Byte offset of `region`'s first word inside a pagemap or kpageflags file:
/// 8 bytes per page.
pub fn segment_word_offset(region: &MemRegion) -> (r: usize)
    requires
        region.start_address as int / (PAGE_SIZE as int) * 8 <= usize::MAX,
    ensures
        r == region.start_address as int / (PAGE_SIZE as int) * 8,
{
    (region.start_address / PAGE_SIZE) * 8
}

/// How many bytes of a pagemap or kpageflags file cover `region`: 8 bytes
/// per page.
pub fn segment_byte_len(region: &MemRegion) -> (r: usize)
    requires
        region.spec_pages() * 8 <= usize::MAX,
    ensures
        r == region.spec_pages() * 8,
        r % 8 == 0,
{
    let r = (region.size / PAGE_SIZE) * 8;
    proof {
        assert((region.spec_pages() * 8) % 8 == 0) by (nonlinear_arith);
    }
    r
}

} // verus!
