//! Summarizing a sampling cycle: how many pages fall in each category, and
//! how much of the sampled address space the kernel reports as swapped in
//! `/proc/<pid>/smaps`.

use vstd::prelude::*;

verus! {

use crate::ProcessMemory;
use crate::Segment;
use crate::bit_set;
use crate::text::dec_run_value;
use crate::text::hex_digits;
use crate::text::spec_hex_digits;
use crate::text::dec_value;
use crate::text::is_dec_digit;
use crate::text::scan_token;
use crate::text::skip_ws;
use crate::text::spec_split_lines;
use crate::text::spec_starts_with;
use crate::text::split_lines;
use crate::text::starts_with;
use crate::text::token_end_at;
use crate::text::ws_end_at;

/// How many pages of one sampling cycle carry each derived or kernel flag.
pub struct PageCounts {
    pub total: u64,
    pub lru: u64,
    pub zero: u64,
    pub active: u64,
    pub present: u64,
}

/// How many words of `s` have bit `b` set.
pub open spec fn count_with_bit(s: Seq<u64>, b: u64) -> int
    decreases s.len(),
{
    if s.len() == 0 {
        0
    } else {
        count_with_bit(s.drop_last(), b) + (if bit_set(s.last(), b) {
            1int
        } else {
            0int
        })
    }
}

/// How many pages all the segments together hold.
pub open spec fn seg_total(segs: Seq<Segment>) -> int
    decreases segs.len(),
{
    if segs.len() == 0 {
        0
    } else {
        seg_total(segs.drop_last()) + segs.last().page_flags@.len()
    }
}

/// How many pages across all the segments have bit `b` set.
pub open spec fn seg_count_bit(segs: Seq<Segment>, b: u64) -> int
    decreases segs.len(),
{
    if segs.len() == 0 {
        0
    } else {
        seg_count_bit(segs.drop_last(), b) + count_with_bit(segs.last().page_flags@, b)
    }
}

proof fn lemma_seg_total_prefix(segs: Seq<Segment>, i: int)
    requires
        0 <= i <= segs.len(),
    ensures
        seg_total(segs.subrange(0, i)) <= seg_total(segs),
        seg_total(segs) >= 0,
    decreases segs.len(),
{
    if i == segs.len() {
        assert(segs.subrange(0, i) =~= segs);
        if segs.len() > 0 {
            lemma_seg_total_prefix(segs.drop_last(), segs.len() - 1);
        }
    } else {
        let head = segs.drop_last();
        lemma_seg_total_prefix(head, i);
        assert(head.subrange(0, i) =~= segs.subrange(0, i));
    }
}

/// Count the sampled pages of one cycle: the total, and how many carry the
/// LRU, zero, active and present bits.
pub fn page_analytics(memory: &ProcessMemory) -> (r: PageCounts)
    requires
        seg_total(memory.segments@) <= u64::MAX,
    ensures
        r.total == seg_total(memory.segments@),
        r.lru == seg_count_bit(memory.segments@, 5),
        r.zero == seg_count_bit(memory.segments@, 57),
        r.active == seg_count_bit(memory.segments@, 58),
        r.present == seg_count_bit(memory.segments@, 63),
{
    let ghost segs = memory.segments@;
    let n = memory.segments.len();
    let mut total: u64 = 0;
    let mut lru: u64 = 0;
    let mut zero: u64 = 0;
    let mut active: u64 = 0;
    let mut present: u64 = 0;
    let mut i: usize = 0;
    proof {
        assert(segs.subrange(0, 0) =~= Seq::<Segment>::empty());
    }
    while i < n
        invariant
            i <= n,
            n == segs.len(),
            segs == memory.segments@,
            seg_total(segs) <= u64::MAX,
            total == seg_total(segs.subrange(0, i as int)),
            lru == seg_count_bit(segs.subrange(0, i as int), 5),
            zero == seg_count_bit(segs.subrange(0, i as int), 57),
            active == seg_count_bit(segs.subrange(0, i as int), 58),
            present == seg_count_bit(segs.subrange(0, i as int), 63),
            lru <= total && zero <= total && active <= total && present <= total,
        decreases n - i,
    {
        let flags = &memory.segments[i].page_flags;
        let ghost fs = flags@;
        let m = flags.len();
        proof {
            assert(segs.subrange(0, i as int + 1).drop_last() =~= segs.subrange(0, i as int));
            assert(segs.subrange(0, i as int + 1).last() == segs[i as int]);
            lemma_seg_total_prefix(segs, i as int + 1);
            assert(fs.subrange(0, 0) =~= Seq::<u64>::empty());
        }
        let mut j: usize = 0;
        while j < m
            invariant
                j <= m,
                m == fs.len(),
                fs == flags@,
                fs == memory.segments@[i as int].page_flags@,
                i < n == segs.len(),
                segs == memory.segments@,
                seg_total(segs) <= u64::MAX,
                seg_total(segs.subrange(0, i as int)) + fs.len() == seg_total(
                    segs.subrange(0, i as int + 1),
                ),
                seg_total(segs.subrange(0, i as int + 1)) <= seg_total(segs),
                total == seg_total(segs.subrange(0, i as int)) + j,
                lru == seg_count_bit(segs.subrange(0, i as int), 5) + count_with_bit(
                    fs.subrange(0, j as int),
                    5,
                ),
                zero == seg_count_bit(segs.subrange(0, i as int), 57) + count_with_bit(
                    fs.subrange(0, j as int),
                    57,
                ),
                active == seg_count_bit(segs.subrange(0, i as int), 58) + count_with_bit(
                    fs.subrange(0, j as int),
                    58,
                ),
                present == seg_count_bit(segs.subrange(0, i as int), 63) + count_with_bit(
                    fs.subrange(0, j as int),
                    63,
                ),
                lru <= total && zero <= total && active <= total && present <= total,
            decreases m - j,
        {
            let w = flags[j];
            proof {
                assert(fs.subrange(0, j as int + 1).drop_last() =~= fs.subrange(0, j as int));
                assert(fs.subrange(0, j as int + 1).last() == fs[j as int]);
            }
            total = total + 1;
            if w & (1u64 << 5) != 0 {
                lru = lru + 1;
            }
            if w & (1u64 << 57) != 0 {
                zero = zero + 1;
            }
            if w & (1u64 << 58) != 0 {
                active = active + 1;
            }
            if w & (1u64 << 63) != 0 {
                present = present + 1;
            }
            j = j + 1;
        }
        proof {
            assert(fs.subrange(0, m as int) =~= fs);
        }
        i = i + 1;
    }
    proof {
        assert(segs.subrange(0, n as int) =~= segs);
    }
    PageCounts { total, lru, zero, active, present }
}

/// The second whitespace-separated token of `l`, as a window `(start, end)`.
pub open spec fn spec_second_token(l: Seq<u8>) -> Option<(int, int)> {
    let a0 = ws_end_at(l, 0);
    let e0 = token_end_at(l, a0);
    let a1 = ws_end_at(l, e0);
    let e1 = token_end_at(l, a1);
    if a1 < e1 {
        Some((a1, e1))
    } else {
        None
    }
}

/// Find the second whitespace-separated token of `line`.
pub fn second_token(line: &Vec<u8>) -> (r: Option<(usize, usize)>)
    ensures
        r matches Some((a, e)) ==> spec_second_token(line@) == Some((a as int, e as int))
            && a < e <= line@.len(),
        r is None ==> spec_second_token(line@) is None,
{
    let a0 = skip_ws(line, 0);
    let e0 = scan_token(line, a0);
    let a1 = skip_ws(line, e0);
    let e1 = scan_token(line, a1);
    if a1 < e1 {
        Some((a1, e1))
    } else {
        None
    }
}

/// The swap figure one `Swap:` line reports, in bytes: its second token
/// read as a decimal number of kibibytes, shifted into bytes.
pub open spec fn spec_swap_line_bytes(line: Seq<u8>) -> Option<u64> {
    match spec_second_token(line) {
        None => None,
        Some((a, e)) => {
            let tok = line.subrange(a, e);
            if (forall|k: int| 0 <= k < tok.len() ==> is_dec_digit(#[trigger] tok[k])) && dec_value(
                tok,
            ) <= u64::MAX {
                Some((dec_value(tok) as u64) << 10)
            } else {
                None
            }
        },
    }
}

/// First line at or after `from` that starts with `p`, or the line count.
pub open spec fn first_match_at(lines: Seq<Seq<u8>>, p: Seq<u8>, from: int) -> int
    decreases lines.len() - from,
    when 0 <= from <= lines.len()
{
    if from >= lines.len() {
        lines.len() as int
    } else if spec_starts_with(lines[from], p) {
        from
    } else {
        first_match_at(lines, p, from + 1)
    }
}

/// Find the first line at or after `from` that starts with `p`.
fn find_first_match(lines: &Vec<Vec<u8>>, p: &Vec<u8>, from: usize) -> (r: usize)
    requires
        from <= lines@.len(),
    ensures
        from <= r <= lines@.len(),
        r == first_match_at(lines.deep_view(), p@, from as int),
{
    let n = lines.len();
    let ghost deep = lines.deep_view();
    proof {
        assert(deep.len() == n);
    }
    let mut i = from;
    while i < n
        invariant
            from <= i <= n,
            n == lines@.len(),
            deep == lines.deep_view(),
            deep.len() == n,
            first_match_at(deep, p@, from as int) == first_match_at(deep, p@, i as int),
        decreases n - i,
    {
        proof {
            assert(deep[i as int] == lines@[i as int].deep_view());
            assert(lines@[i as int].deep_view() =~= lines@[i as int]@);
        }
        if starts_with(&lines[i], p) {
            return i;
        }
        i = i + 1;
    }
    n
}

/// The `Swap:` figure of the `smaps` block whose header starts with the
/// segment's start address in hex: find the first line starting with that
/// numeral, then the first `Swap:` line after it, and read its amount.
pub open spec fn spec_swap_for_segment(lines: Seq<Seq<u8>>, addr: usize) -> Option<u64> {
    let target = spec_hex_digits(addr as int);
    let i = first_match_at(lines, target, 0);
    if i >= lines.len() {
        None
    } else {
        let j = first_match_at(lines, swap_prefix(), i + 1);
        if j >= lines.len() {
            None
        } else {
            spec_swap_line_bytes(lines[j])
        }
    }
}

/// The `Swap:` field label.
pub open spec fn swap_prefix() -> Seq<u8> {
    seq![83u8, 119u8, 97u8, 112u8, 58u8]
}

fn swap_prefix_vec() -> (r: Vec<u8>)
    ensures
        r@ == swap_prefix(),
{
    let mut r: Vec<u8> = Vec::new();
    r.push(83);
    r.push(119);
    r.push(97);
    r.push(112);
    r.push(58);
    proof {
        assert(r@ =~= swap_prefix());
    }
    r
}

/// How many bytes of `segment` the kernel reports as swapped, read from the
/// raw text of `/proc/<pid>/smaps`; `None` when the segment's block or its
/// `Swap:` line cannot be found or its amount does not parse.
pub fn swap_for_segment(smaps: &Vec<u8>, segment: &Segment) -> (r: Option<u64>)
    ensures
        r == spec_swap_for_segment(spec_split_lines(smaps@), segment.addr_start),
{
    let lines = split_lines(smaps);
    let ghost deep = lines.deep_view();
    let target = hex_digits(segment.addr_start);
    let n = lines.len();
    proof {
        assert(deep.len() == n);
    }
    let i = find_first_match(&lines, &target, 0);
    if i >= n {
        return None;
    }
    let sp = swap_prefix_vec();
    let j = find_first_match(&lines, &sp, i + 1);
    if j >= n {
        return None;
    }
    let line = &lines[j];
    proof {
        assert(deep[j as int] == lines@[j as int].deep_view());
        assert(lines@[j as int].deep_view() =~= lines@[j as int]@);
    }
    match second_token(line) {
        None => None,
        Some((a, e)) => {
            let ghost tok = line@.subrange(a as int, e as int);
            match dec_run_value(line, a, e) {
                None => {
                    proof {
                        if exists|k: int|
                            a <= k < e && !is_dec_digit(#[trigger] line@[k]) {
                            let k = choose|k: int|
                                a <= k < e && !is_dec_digit(#[trigger] line@[k]);
                            assert(tok[k - a] == line@[k]);
                            assert(!is_dec_digit(tok[k - a]));
                        }
                    }
                    None
                },
                Some(v) => {
                    proof {
                        assert forall|t: int| 0 <= t < tok.len() implies is_dec_digit(
                            #[trigger] tok[t],
                        ) by {
                            assert(tok[t] == line@[a + t]);
                        }
                    }
                    Some(v << 10u64)
                },
            }
        },
    }
}

/// The summed `Swap:` figure of all segments, as one fold over the cycle:
/// `None` as soon as any segment's figure cannot be found, `Some` of the
/// total otherwise.
pub open spec fn spec_swap_total(lines: Seq<Seq<u8>>, segs: Seq<Segment>) -> Option<int>
    decreases segs.len(),
{
    if segs.len() == 0 {
        Some(0)
    } else {
        match spec_swap_total(lines, segs.drop_last()) {
            None => None,
            Some(acc) => match spec_swap_for_segment(lines, segs.last().addr_start) {
                None => None,
                Some(v) => Some(acc + v),
            },
        }
    }
}

/// Sum the swap figures of every segment of the cycle. `None` when any
/// segment's figure is missing, or when the total does not fit a `u64`.
pub fn swap_usage_total(smaps: &Vec<u8>, memory: &ProcessMemory) -> (r: Option<u64>)
    ensures
        r matches Some(v) ==> spec_swap_total(spec_split_lines(smaps@), memory.segments@) == Some(
            v as int,
        ),
        r is None ==> (spec_swap_total(spec_split_lines(smaps@), memory.segments@) is None
            || spec_swap_total(spec_split_lines(smaps@), memory.segments@).unwrap() > u64::MAX),
{
    let ghost lines = spec_split_lines(smaps@);
    let ghost segs = memory.segments@;
    let n = memory.segments.len();
    let mut acc: u128 = 0;
    let mut failed = false;
    let mut i: usize = 0;
    proof {
        assert(segs.subrange(0, 0) =~= Seq::<Segment>::empty());
    }
    while i < n
        invariant
            i <= n,
            n == segs.len(),
            segs == memory.segments@,
            lines == spec_split_lines(smaps@),
            !failed ==> spec_swap_total(lines, segs.subrange(0, i as int)) == Some(acc as int),
            !failed ==> acc <= (i as int) * (u64::MAX as int),
            failed ==> spec_swap_total(lines, segs.subrange(0, i as int)) is None,
        decreases n - i,
    {
        proof {
            assert(segs.subrange(0, i as int + 1).drop_last() =~= segs.subrange(0, i as int));
            assert(segs.subrange(0, i as int + 1).last() == segs[i as int]);
        }
        if !failed {
            match swap_for_segment(smaps, &memory.segments[i]) {
                None => {
                    failed = true;
                },
                Some(v) => {
                    proof {
                        assert(acc + v <= (i as int) * (u64::MAX as int) + u64::MAX);
                        assert((i as int) * (u64::MAX as int) + u64::MAX == (i as int + 1) * (
                        u64::MAX as int)) by (nonlinear_arith);
                        assert((i as int + 1) * (u64::MAX as int) <= (u64::MAX as int) * (
                        u64::MAX as int)) by (nonlinear_arith)
                            requires
                                0 <= i,
                                i as int + 1 <= u64::MAX as int,
                        ;
                        assert((u64::MAX as int) * (u64::MAX as int) < u128::MAX as int)
                            by (nonlinear_arith);
                    }
                    acc = acc + (v as u128);
                },
            }
        }
        i = i + 1;
    }
    proof {
        assert(segs.subrange(0, n as int) =~= segs);
    }
    if failed {
        return None;
    }
    if acc > 0xffff_ffff_ffff_ffffu128 {
        return None;
    }
    Some(acc as u64)
}

} // verus!
