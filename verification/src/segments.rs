//! Ranges of the sampled address space, and how they are read out of the
//! kernel's `maps` / `iomem` text.

use vstd::prelude::*;

verus! {

use crate::PAGE_SIZE;
use crate::SEGMENT_THRESHOLD;
use crate::USERSPACE_END;
use crate::text::hex_end_at;
use crate::text::is_ascii_ws;
use crate::text::lemma_hex_digits_are_digits;
use crate::text::lemma_hex_digits_value;
use crate::text::spec_hex_digits;
use crate::text::hex_value;
use crate::text::scan_hex_run;
use crate::text::hex_run_value;
use crate::text::is_hex_digit;
use crate::text::skip_ws;
use crate::text::spec_contains_bytes;
use crate::text::contains_bytes;
use crate::text::ws_end_at;

/// A contiguous range of the target address space — virtual addresses of one
/// process, or physical addresses of the host — treated as one unit of
/// sampling. `size` is a byte length.
#[derive(Clone, Copy, Debug, PartialEq, Eq, Structural)]
pub struct MemRegion {
    pub start_address: usize,
    pub size: usize,
}

impl MemRegion {
    /// The range covers whole pages: both its start and its length sit on a
    /// page boundary, and it holds at least one page.
    pub open spec fn wf(&self) -> bool {
        &&& self.start_address as int % (PAGE_SIZE as int) == 0
        &&& self.size as int % (PAGE_SIZE as int) == 0
        &&& self.size >= PAGE_SIZE
    }

    /// How many pages the range covers.
    pub open spec fn spec_pages(&self) -> int {
        self.size as int / (PAGE_SIZE as int)
    }

    pub fn pages(&self) -> (r: usize)
        ensures
            r == self.spec_pages(),
    {
        self.size / PAGE_SIZE
    }
}

/// The two addresses of a `HEX-HEX` prefix (after optional leading
/// whitespace), or `None` when the line does not carry one.
pub open spec fn spec_line_addresses(l: Seq<u8>) -> Option<(int, int)> {
    let p0 = ws_end_at(l, 0);
    let p1 = hex_end_at(l, p0);
    if p1 <= p0 || p1 >= l.len() || l[p1] != 45 {
        None
    } else {
        let p2 = hex_end_at(l, p1 + 1);
        if p2 <= p1 + 1 {
            None
        } else {
            Some((hex_value(l.subrange(p0, p1)), hex_value(l.subrange(p1 + 1, p2))))
        }
    }
}

/// The region one `maps` or `iomem` line describes. `iomem` ranges include
/// their end address, so they are one byte longer than the difference;
/// `maps` ranges are half-open. A line is dropped when it has no `HEX-HEX`
/// prefix, when an address overflows, or when the resulting range does not
/// cover whole pages.
pub open spec fn spec_line_region(l: Seq<u8>, inclusive_end: bool) -> Option<MemRegion> {
    match spec_line_addresses(l) {
        None => None,
        Some((a, b)) => {
            let sz = if inclusive_end {
                b - a + 1
            } else {
                b - a
            };
            if 0 <= a <= usize::MAX && 0 <= b <= usize::MAX && 1 <= sz <= usize::MAX && a % (
            PAGE_SIZE as int) == 0 && sz % (PAGE_SIZE as int) == 0 {
                Some(MemRegion { start_address: a as usize, size: sz as usize })
            } else {
                None
            }
        },
    }
}

/// Parse one line. Returns exactly what [`spec_line_region`] names.
pub fn parse_line_region(line: &Vec<u8>, inclusive_end: bool) -> (r: Option<MemRegion>)
    ensures
        r == spec_line_region(line@, inclusive_end),
{
    let n = line.len();
    let p0 = skip_ws(line, 0);
    let p1 = scan_hex_run(line, p0);
    proof {
        lemma_hex_end_from_facts(line@, p0 as int, p1 as int);
    }
    if p1 <= p0 || p1 >= n || line[p1] != 45 {
        return None;
    }
    let p2 = scan_hex_run(line, p1 + 1);
    proof {
        lemma_hex_end_from_facts(line@, p1 as int + 1, p2 as int);
    }
    if p2 <= p1 + 1 {
        return None;
    }
    let a = match hex_run_value(line, p0, p1) {
        Some(v) => v,
        None => {
            return None;
        },
    };
    let b = match hex_run_value(line, p1 + 1, p2) {
        Some(v) => v,
        None => {
            return None;
        },
    };
    if b < a {
        return None;
    }
    let diff = b - a;
    let sz: usize = if inclusive_end {
        if diff > usize::MAX - 1 {
            return None;
        }
        diff + 1
    } else {
        if diff == 0 {
            return None;
        }
        diff
    };
    if a % PAGE_SIZE != 0 || sz % PAGE_SIZE != 0 {
        return None;
    }
    Some(MemRegion { start_address: a, size: sz })
}

/// A scan that saw hex digits up to `end` and a non-digit (or the line's
/// end) at `end` found `hex_end_at`.
proof fn lemma_hex_end_from_facts(s: Seq<u8>, from: int, end: int)
    requires
        0 <= from <= end <= s.len(),
        forall|k: int| from <= k < end ==> is_hex_digit(#[trigger] s[k]),
        end == s.len() || !is_hex_digit(s[end]),
    ensures
        hex_end_at(s, from) == end,
    decreases end - from,
{
    if from < end {
        lemma_hex_end_from_facts(s, from + 1, end);
    }
}


/// Round trip: a line printed as the kernel prints a `maps` range —
/// `START-END` in hex, then a space and whatever else — parses back to the
/// same two addresses, and (half-open) to the same region.
pub proof fn lemma_maps_line_round_trip(a: usize, b: usize, rest: Seq<u8>)
    requires
        rest.len() == 0 || is_ascii_ws(rest[0]),
    ensures
        spec_line_addresses(spec_hex_digits(a as int) + seq![45u8] + spec_hex_digits(b as int)
            + rest) == Some((a as int, b as int)),
        a < b && a as int % (PAGE_SIZE as int) == 0 && (b - a) as int % (PAGE_SIZE as int) == 0
            ==> spec_line_region(
            spec_hex_digits(a as int) + seq![45u8] + spec_hex_digits(b as int) + rest,
            false,
        ) == Some(MemRegion { start_address: a, size: (b - a) as usize }),
{
    let da = spec_hex_digits(a as int);
    let db = spec_hex_digits(b as int);
    let line = da + seq![45u8] + db + rest;
    lemma_hex_digits_are_digits(a as int);
    lemma_hex_digits_are_digits(b as int);
    let p1 = da.len() as int;
    let p2 = p1 + 1 + db.len() as int;
    assert forall|k: int| 0 <= k < p1 implies is_hex_digit(#[trigger] line[k]) by {
        assert(line[k] == da[k]);
    }
    assert forall|k: int| p1 + 1 <= k < p2 implies is_hex_digit(#[trigger] line[k]) by {
        assert(line[k] == db[k - (p1 + 1)]);
    }
    assert(line[p1] == 45u8);
    assert(!is_hex_digit(45u8));
    assert(p2 == line.len() || !is_hex_digit(line[p2])) by {
        if p2 < line.len() {
            assert(line[p2] == rest[0]);
            assert(is_ascii_ws(rest[0]));
        }
    }
    assert(!is_ascii_ws(line[0])) by {
        assert(line[0] == da[0]);
        assert(is_hex_digit(da[0]));
    }
    assert(ws_end_at(line, 0) == 0);
    lemma_hex_end_from_facts(line, 0, p1);
    lemma_hex_end_from_facts(line, p1 + 1, p2);
    assert(line.subrange(0, p1) =~= da);
    assert(line.subrange(p1 + 1, p2) =~= db);
    lemma_hex_digits_value(a as int);
    lemma_hex_digits_value(b as int);
    if a < b && a as int % (PAGE_SIZE as int) == 0 && (b - a) as int % (PAGE_SIZE as int) == 0 {
        assert(spec_line_region(line, false) == Some(
            MemRegion { start_address: a, size: (b - a) as usize },
        ));
    }
}

/// The regions of all parsable lines, in file order.
pub open spec fn spec_regions_of(lines: Seq<Seq<u8>>, inclusive_end: bool) -> Seq<MemRegion>
    decreases lines.len(),
{
    if lines.len() == 0 {
        Seq::empty()
    } else {
        let rest = spec_regions_of(lines.drop_last(), inclusive_end);
        match spec_line_region(lines.last(), inclusive_end) {
            Some(rg) => rest.push(rg),
            None => rest,
        }
    }
}

/// Every region the parser yields covers whole pages: its start and its size
/// are multiples of the page size, and it holds at least one page.
pub proof fn lemma_parsed_regions_well_formed(lines: Seq<Seq<u8>>, inclusive_end: bool)
    ensures
        forall|i: int|
            0 <= i < spec_regions_of(lines, inclusive_end).len() ==> (#[trigger] spec_regions_of(
                lines,
                inclusive_end,
            )[i]).wf(),
    decreases lines.len(),
{
    if lines.len() > 0 {
        lemma_parsed_regions_well_formed(lines.drop_last(), inclusive_end);
        match spec_line_region(lines.last(), inclusive_end) {
            Some(rg) => {
                assert(rg.size as int % (PAGE_SIZE as int) == 0 && rg.size >= 1);
                if rg.size < PAGE_SIZE {
                    vstd::arithmetic::div_mod::lemma_small_mod(
                        rg.size as nat,
                        PAGE_SIZE as nat,
                    );
                }
                assert(rg.wf());
                assert(spec_regions_of(lines, inclusive_end) == spec_regions_of(
                    lines.drop_last(),
                    inclusive_end,
                ).push(rg));
            },
            None => {
                assert(spec_regions_of(lines, inclusive_end) == spec_regions_of(
                    lines.drop_last(),
                    inclusive_end,
                ));
            },
        }
    }
}

/// Parse every line that carries a `HEX-HEX` prefix into a region; lines
/// without one are skipped. Every returned region is well formed.
pub fn parse_segment_addresses(lines: &Vec<Vec<u8>>, inclusive_end: bool) -> (r: Vec<MemRegion>)
    ensures
        r@ == spec_regions_of(lines.deep_view(), inclusive_end),
        forall|i: int| 0 <= i < r@.len() ==> (#[trigger] r@[i]).wf(),
{
    let n = lines.len();
    let mut r: Vec<MemRegion> = Vec::new();
    let mut i: usize = 0;
    proof {
        assert(lines.deep_view().subrange(0, 0) =~= Seq::<Seq<u8>>::empty());
    }
    while i < n
        invariant
            i <= n,
            n == lines@.len(),
            lines.deep_view().len() == n,
            r@ == spec_regions_of(lines.deep_view().subrange(0, i as int), inclusive_end),
        decreases n - i,
    {
        let parsed = parse_line_region(&lines[i], inclusive_end);
        proof {
            let deep = lines.deep_view();
            assert(deep[i as int] == lines@[i as int].deep_view());
            assert(lines@[i as int].deep_view() =~= lines@[i as int]@);
            assert(deep.subrange(0, i as int + 1).drop_last() =~= deep.subrange(0, i as int));
            assert(deep.subrange(0, i as int + 1).last() == deep[i as int]);
        }
        match parsed {
            Some(rg) => {
                r.push(rg);
            },
            None => {},
        }
        i = i + 1;
    }
    proof {
        assert(lines.deep_view().subrange(0, n as int) =~= lines.deep_view());
        lemma_parsed_regions_well_formed(lines.deep_view(), inclusive_end);
    }
    r
}

/// Whether a virtual region is worth sampling: below the user-space
/// boundary and at least the size threshold.
pub open spec fn spec_keep_virtual(rg: MemRegion) -> bool {
    (rg.start_address as int) < USERSPACE_END && rg.size >= SEGMENT_THRESHOLD
}

/// The virtual regions that survive the threshold filter, in order.
pub open spec fn spec_filter_virtual(regions: Seq<MemRegion>) -> Seq<MemRegion>
    decreases regions.len(),
{
    if regions.len() == 0 {
        Seq::empty()
    } else {
        let rest = spec_filter_virtual(regions.drop_last());
        if spec_keep_virtual(regions.last()) {
            rest.push(regions.last())
        } else {
            rest
        }
    }
}

/// Keep only the virtual regions worth sampling.
pub fn filter_virtual_segments(regions: &Vec<MemRegion>) -> (r: Vec<MemRegion>)
    ensures
        r@ == spec_filter_virtual(regions@),
{
    let n = regions.len();
    let mut r: Vec<MemRegion> = Vec::new();
    let mut i: usize = 0;
    proof {
        assert(regions@.subrange(0, 0) =~= Seq::<MemRegion>::empty());
    }
    while i < n
        invariant
            i <= n,
            n == regions@.len(),
            r@ == spec_filter_virtual(regions@.subrange(0, i as int)),
        decreases n - i,
    {
        let rg = regions[i];
        proof {
            assert(regions@.subrange(0, i as int + 1).drop_last() =~= regions@.subrange(
                0,
                i as int,
            ));
            assert(regions@.subrange(0, i as int + 1).last() == regions@[i as int]);
        }
        if (rg.start_address as u64) < USERSPACE_END && rg.size >= SEGMENT_THRESHOLD {
            r.push(rg);
        }
        i = i + 1;
    }
    proof {
        assert(regions@.subrange(0, n as int) =~= regions@);
    }
    r
}

/// The lines of `/proc/iomem` that describe system RAM, in order.
pub open spec fn spec_filter_system_ram(lines: Seq<Seq<u8>>) -> Seq<Seq<u8>>
    decreases lines.len(),
{
    if lines.len() == 0 {
        Seq::empty()
    } else {
        let rest = spec_filter_system_ram(lines.drop_last());
        if spec_contains_bytes(lines.last(), system_ram_pattern()) {
            rest.push(lines.last())
        } else {
            rest
        }
    }
}

/// The marker the kernel prints on RAM ranges in `/proc/iomem`.
pub open spec fn system_ram_pattern() -> Seq<u8> {
    seq![83u8, 121u8, 115u8, 116u8, 101u8, 109u8, 32u8, 82u8, 65u8, 77u8]
}

fn system_ram_pattern_vec() -> (r: Vec<u8>)
    ensures
        r@ == system_ram_pattern(),
{
    let mut r: Vec<u8> = Vec::new();
    r.push(83);
    r.push(121);
    r.push(115);
    r.push(116);
    r.push(101);
    r.push(109);
    r.push(32);
    r.push(82);
    r.push(65);
    r.push(77);
    proof {
        assert(r@ =~= system_ram_pattern());
    }
    r
}

/// The regions of the host's physical RAM, read from the lines of
/// `/proc/iomem`: the `System RAM` ranges, ends included.
pub fn physical_regions_from_lines(lines: &Vec<Vec<u8>>) -> (r: Vec<MemRegion>)
    ensures
        r@ == spec_regions_of(spec_filter_system_ram(lines.deep_view()), true),
        forall|i: int| 0 <= i < r@.len() ==> (#[trigger] r@[i]).wf(),
{
    let pattern = system_ram_pattern_vec();
    let n = lines.len();
    let mut kept: Vec<Vec<u8>> = Vec::new();
    let mut i: usize = 0;
    proof {
        assert(lines.deep_view().subrange(0, 0) =~= Seq::<Seq<u8>>::empty());
        assert(kept.deep_view() =~= spec_filter_system_ram(lines.deep_view().subrange(0, 0)));
    }
    while i < n
        invariant
            i <= n,
            n == lines@.len(),
            lines.deep_view().len() == n,
            pattern@ == system_ram_pattern(),
            kept.deep_view() =~= spec_filter_system_ram(lines.deep_view().subrange(0, i as int)),
        decreases n - i,
    {
        let keep = contains_bytes(&lines[i], &pattern);
        proof {
            let deep = lines.deep_view();
            assert(deep[i as int] == lines@[i as int].deep_view());
            assert(lines@[i as int].deep_view() =~= lines@[i as int]@);
            assert(deep.subrange(0, i as int + 1).drop_last() =~= deep.subrange(0, i as int));
            assert(deep.subrange(0, i as int + 1).last() == deep[i as int]);
        }
        if keep {
            let ghost old_deep = kept.deep_view();
            let line = vstd::slice::slice_to_vec(lines[i].as_slice());
            kept.push(line);
            proof {
                assert(kept.deep_view() =~= old_deep.push(lines@[i as int]@));
            }
        }
        i = i + 1;
    }
    proof {
        assert(lines.deep_view().subrange(0, n as int) =~= lines.deep_view());
    }
    let r = parse_segment_addresses(&kept, true);
    proof {
        assert(kept.deep_view() == spec_filter_system_ram(lines.deep_view()));
    }
    r
}

/// The regions of one process's address space, read from the lines of
/// `/proc/<pid>/maps`: every `HEX-HEX` prefixed line, half-open.
pub fn virtual_regions_from_lines(lines: &Vec<Vec<u8>>) -> (r: Vec<MemRegion>)
    ensures
        r@ == spec_regions_of(lines.deep_view(), false),
        forall|i: int| 0 <= i < r@.len() ==> (#[trigger] r@[i]).wf(),
{
    parse_segment_addresses(lines, false)
}

} // verus!
