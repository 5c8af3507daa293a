//! Byte-level text utilities for the kernel's `maps`, `iomem` and `smaps`
//! files: hex and decimal numerals, line splitting and token scanning. The
//! files are ASCII, so everything here works on byte sequences.

use vstd::prelude::*;

verus! {

/// An ASCII hex digit, either case.
pub open spec fn is_hex_digit(c: u8) -> bool {
    (48 <= c <= 57) || (97 <= c <= 102) || (65 <= c <= 70)
}

/// The value of one ASCII hex digit.
pub open spec fn hex_digit_val(c: u8) -> int
    recommends
        is_hex_digit(c),
{
    if 48 <= c <= 57 {
        c - 48
    } else if 97 <= c <= 102 {
        c - 87
    } else {
        c - 55
    }
}

/// The value of a most-significant-first run of hex digits.
pub open spec fn hex_value(s: Seq<u8>) -> int
    decreases s.len(),
{
    if s.len() == 0 {
        0
    } else {
        hex_value(s.drop_last()) * 16 + hex_digit_val(s.last())
    }
}

/// An ASCII decimal digit.
pub open spec fn is_dec_digit(c: u8) -> bool {
    48 <= c <= 57
}

/// The value of a most-significant-first run of decimal digits.
pub open spec fn dec_value(s: Seq<u8>) -> int
    decreases s.len(),
{
    if s.len() == 0 {
        0
    } else {
        dec_value(s.drop_last()) * 10 + (s.last() - 48)
    }
}

proof fn lemma_hex_value_nonneg(s: Seq<u8>)
    requires
        forall|k: int| 0 <= k < s.len() ==> is_hex_digit(#[trigger] s[k]),
    ensures
        hex_value(s) >= 0,
    decreases s.len(),
{
    if s.len() > 0 {
        lemma_hex_value_nonneg(s.drop_last());
        assert(hex_value(s.drop_last()) * 16 >= 0) by (nonlinear_arith)
            requires
                hex_value(s.drop_last()) >= 0,
        ;
        assert(is_hex_digit(s.last()));
    }
}

/// A digit run is worth at least any of its prefixes.
proof fn lemma_hex_value_prefix(s: Seq<u8>, i: int)
    requires
        0 <= i <= s.len(),
        forall|k: int| 0 <= k < s.len() ==> is_hex_digit(#[trigger] s[k]),
    ensures
        hex_value(s.subrange(0, i)) <= hex_value(s),
    decreases s.len(),
{
    if i == s.len() {
        assert(s.subrange(0, i) =~= s);
    } else {
        let head = s.drop_last();
        lemma_hex_value_nonneg(head);
        lemma_hex_value_prefix(head, i);
        assert(head.subrange(0, i) =~= s.subrange(0, i));
        assert(hex_value(head) * 16 >= hex_value(head)) by (nonlinear_arith)
            requires
                hex_value(head) >= 0,
        ;
        assert(is_hex_digit(s.last()));
    }
}

proof fn lemma_dec_value_nonneg(s: Seq<u8>)
    requires
        forall|k: int| 0 <= k < s.len() ==> is_dec_digit(#[trigger] s[k]),
    ensures
        dec_value(s) >= 0,
    decreases s.len(),
{
    if s.len() > 0 {
        lemma_dec_value_nonneg(s.drop_last());
        assert(dec_value(s.drop_last()) * 10 >= 0) by (nonlinear_arith)
            requires
                dec_value(s.drop_last()) >= 0,
        ;
    }
}

proof fn lemma_dec_value_prefix(s: Seq<u8>, i: int)
    requires
        0 <= i <= s.len(),
        forall|k: int| 0 <= k < s.len() ==> is_dec_digit(#[trigger] s[k]),
    ensures
        dec_value(s.subrange(0, i)) <= dec_value(s),
    decreases s.len(),
{
    if i == s.len() {
        assert(s.subrange(0, i) =~= s);
    } else {
        let head = s.drop_last();
        lemma_dec_value_nonneg(head);
        lemma_dec_value_prefix(head, i);
        assert(head.subrange(0, i) =~= s.subrange(0, i));
        assert(dec_value(head) * 10 >= dec_value(head)) by (nonlinear_arith)
            requires
                dec_value(head) >= 0,
        ;
    }
}

/// The end of the run of hex digits that starts at `from`: every byte before
/// the result is a digit, and the result itself is the line's end or a
/// non-digit.
pub fn scan_hex_run(line: &Vec<u8>, from: usize) -> (end: usize)
    requires
        from <= line@.len(),
    ensures
        from <= end <= line@.len(),
        forall|k: int| from <= k < end ==> is_hex_digit(#[trigger] line@[k]),
        end < line@.len() ==> !is_hex_digit(line@[end as int]),
{
    let n = line.len();
    let mut i = from;
    while i < n
        invariant
            from <= i <= n,
            n == line@.len(),
            forall|k: int| from <= k < i ==> is_hex_digit(#[trigger] line@[k]),
        decreases n - i,
    {
        let c = line[i];
        let digit = (48 <= c && c <= 57) || (97 <= c && c <= 102) || (65 <= c && c <= 70);
        if !digit {
            return i;
        }
        i = i + 1;
    }
    n
}

/// The value of the hex digits `line[from..end]`, or `None` when it does not
/// fit a `usize`.
pub fn hex_run_value(line: &Vec<u8>, from: usize, end: usize) -> (r: Option<usize>)
    requires
        from <= end <= line@.len(),
        forall|k: int| from <= k < end ==> is_hex_digit(#[trigger] line@[k]),
    ensures
        r matches Some(v) ==> v == hex_value(line@.subrange(from as int, end as int)),
        r is None ==> hex_value(line@.subrange(from as int, end as int)) > usize::MAX,
{
    let ghost whole = line@.subrange(from as int, end as int);
    let mut acc: usize = 0;
    let mut i = from;
    while i < end
        invariant
            from <= i <= end <= line@.len(),
            forall|k: int| from <= k < end ==> is_hex_digit(#[trigger] line@[k]),
            acc == hex_value(line@.subrange(from as int, i as int)),
        decreases end - i,
    {
        let c = line[i];
        let d: usize = if 48 <= c && c <= 57 {
            (c - 48) as usize
        } else if 97 <= c && c <= 102 {
            (c - 87) as usize
        } else {
            (c - 55) as usize
        };
        proof {
            assert(line@.subrange(from as int, i as int + 1).drop_last() =~= line@.subrange(
                from as int,
                i as int,
            ));
            assert(line@.subrange(from as int, i as int + 1).last() == line@[i as int]);
        }
        if acc > (usize::MAX - d) / 16 {
            proof {
                let x = (usize::MAX - d) as int;
                assert(16 * (x / 16) > x - 16) by {
                    vstd::arithmetic::div_mod::lemma_fundamental_div_mod(x, 16);
                };
                assert(acc * 16 >= (x / 16 + 1) * 16) by (nonlinear_arith)
                    requires
                        acc >= x / 16 + 1,
                ;
                assert(acc * 16 + d > usize::MAX);
                assert(hex_value(line@.subrange(from as int, i as int + 1)) > usize::MAX);
                lemma_subrange_all_hex(line@, from as int, i as int + 1, end as int);
            }
            return None;
        }
        let next = acc * 16 + d;
        acc = next;
        i = i + 1;
    }
    Some(acc)
}

/// The value of a prefix of hex digits never exceeds the value of the whole
/// run (applied to two windows of the same line).
proof fn lemma_subrange_all_hex(s: Seq<u8>, from: int, mid: int, end: int)
    requires
        0 <= from <= mid <= end <= s.len(),
        forall|k: int| from <= k < end ==> is_hex_digit(#[trigger] s[k]),
    ensures
        hex_value(s.subrange(from, mid)) <= hex_value(s.subrange(from, end)),
{
    let whole = s.subrange(from, end);
    lemma_hex_value_prefix(whole, mid - from);
    assert(whole.subrange(0, mid - from) =~= s.subrange(from, mid));
}

/// The end of the run of decimal digits that starts at `from`.
pub fn scan_dec_run(line: &Vec<u8>, from: usize) -> (end: usize)
    requires
        from <= line@.len(),
    ensures
        from <= end <= line@.len(),
        forall|k: int| from <= k < end ==> is_dec_digit(#[trigger] line@[k]),
        end < line@.len() ==> !is_dec_digit(line@[end as int]),
{
    let n = line.len();
    let mut i = from;
    while i < n
        invariant
            from <= i <= n,
            n == line@.len(),
            forall|k: int| from <= k < i ==> is_dec_digit(#[trigger] line@[k]),
        decreases n - i,
    {
        let c = line[i];
        if !(48 <= c && c <= 57) {
            return i;
        }
        i = i + 1;
    }
    n
}

/// The value of the decimal digits `line[from..end]` as a `u64`, or `None`
/// when the window is empty, holds a non-digit, or does not fit.
pub fn dec_run_value(line: &Vec<u8>, from: usize, end: usize) -> (r: Option<u64>)
    requires
        from <= end <= line@.len(),
    ensures
        r matches Some(v) ==> from < end && (forall|k: int|
            from <= k < end ==> is_dec_digit(#[trigger] line@[k])) && v == dec_value(
            line@.subrange(from as int, end as int),
        ),
        r is None ==> from >= end || (exists|k: int|
            from <= k < end && !is_dec_digit(#[trigger] line@[k])) || dec_value(
            line@.subrange(from as int, end as int),
        ) > u64::MAX,
{
    if from >= end {
        return None;
    }
    let mut acc: u64 = 0;
    let mut i = from;
    while i < end
        invariant
            from <= i <= end <= line@.len(),
            forall|k: int| from <= k < i ==> is_dec_digit(#[trigger] line@[k]),
            acc == dec_value(line@.subrange(from as int, i as int)),
        decreases end - i,
    {
        let c = line[i];
        if !(48 <= c && c <= 57) {
            return None;
        }
        let d = (c - 48) as u64;
        proof {
            assert(line@.subrange(from as int, i as int + 1).drop_last() =~= line@.subrange(
                from as int,
                i as int,
            ));
            assert(line@.subrange(from as int, i as int + 1).last() == line@[i as int]);
        }
        if acc > (u64::MAX - d) / 10 {
            proof {
                let x = (u64::MAX - d) as int;
                assert(10 * (x / 10) > x - 10) by {
                    vstd::arithmetic::div_mod::lemma_fundamental_div_mod(x, 10);
                };
                assert(acc * 10 >= (x / 10 + 1) * 10) by (nonlinear_arith)
                    requires
                        acc >= x / 10 + 1,
                ;
                assert(acc * 10 + d > u64::MAX);
                assert(dec_value(line@.subrange(from as int, i as int + 1)) > u64::MAX);
                lemma_dec_overflow_propagates(line@, from as int, i as int + 1, end as int);
            }
            return None;
        }
        acc = acc * 10 + d;
        i = i + 1;
    }
    Some(acc)
}

/// Once a prefix of a digit run has overflowed, the whole window either
/// holds a non-digit later on or overflows as well.
proof fn lemma_dec_overflow_propagates(s: Seq<u8>, from: int, mid: int, end: int)
    requires
        0 <= from <= mid <= end <= s.len(),
        forall|k: int| from <= k < mid ==> is_dec_digit(#[trigger] s[k]),
        dec_value(s.subrange(from, mid)) > u64::MAX,
    ensures
        (exists|k: int| from <= k < end && !is_dec_digit(#[trigger] s[k])) || dec_value(
            s.subrange(from, end),
        ) > u64::MAX,
{
    if forall|k: int| from <= k < end ==> is_dec_digit(#[trigger] s[k]) {
        let whole = s.subrange(from, end);
        lemma_dec_value_prefix(whole, mid - from);
        assert(whole.subrange(0, mid - from) =~= s.subrange(from, mid));
    }
}

/// ASCII whitespace, as the standard library's whitespace splitting sees it.
pub open spec fn is_ascii_ws(c: u8) -> bool {
    c == 32 || c == 9 || c == 10 || c == 12 || c == 13
}

/// First index at or after `from` that holds a non-whitespace byte, or the
/// end of `s`.
pub open spec fn ws_end_at(s: Seq<u8>, from: int) -> int
    decreases s.len() - from,
    when 0 <= from <= s.len()
{
    if from >= s.len() {
        s.len() as int
    } else if !is_ascii_ws(s[from]) {
        from
    } else {
        ws_end_at(s, from + 1)
    }
}

/// First index at or after `from` that holds a hex digit boundary (a byte
/// that is not a hex digit), or the end of `s`.
pub open spec fn hex_end_at(s: Seq<u8>, from: int) -> int
    decreases s.len() - from,
    when 0 <= from <= s.len()
{
    if from >= s.len() {
        s.len() as int
    } else if !is_hex_digit(s[from]) {
        from
    } else {
        hex_end_at(s, from + 1)
    }
}

/// First index at or after `from` that holds a whitespace byte, or the end
/// of `s`.
pub open spec fn token_end_at(s: Seq<u8>, from: int) -> int
    decreases s.len() - from,
    when 0 <= from <= s.len()
{
    if from >= s.len() {
        s.len() as int
    } else if is_ascii_ws(s[from]) {
        from
    } else {
        token_end_at(s, from + 1)
    }
}

/// First index at or after `from` that holds a newline, or the end of `s`.
pub open spec fn newline_at(s: Seq<u8>, from: int) -> int
    decreases s.len() - from,
    when 0 <= from <= s.len()
{
    if from >= s.len() {
        s.len() as int
    } else if s[from] == 10 {
        from
    } else {
        newline_at(s, from + 1)
    }
}

pub proof fn lemma_newline_at_bounds(s: Seq<u8>, from: int)
    requires
        0 <= from <= s.len(),
    ensures
        from <= newline_at(s, from) <= s.len(),
    decreases s.len() - from,
{
    if from < s.len() && s[from] != 10 {
        lemma_newline_at_bounds(s, from + 1);
    }
}

/// Skip whitespace: the first non-whitespace position at or after `from`.
pub fn skip_ws(line: &Vec<u8>, from: usize) -> (r: usize)
    requires
        from <= line@.len(),
    ensures
        from <= r <= line@.len(),
        r == ws_end_at(line@, from as int),
{
    let n = line.len();
    let mut i = from;
    while i < n
        invariant
            from <= i <= n,
            n == line@.len(),
            ws_end_at(line@, from as int) == ws_end_at(line@, i as int),
        decreases n - i,
    {
        let c = line[i];
        if !(c == 32 || c == 9 || c == 10 || c == 12 || c == 13) {
            return i;
        }
        i = i + 1;
    }
    n
}

/// The end of the whitespace-free token that starts at `from`.
pub fn scan_token(line: &Vec<u8>, from: usize) -> (r: usize)
    requires
        from <= line@.len(),
    ensures
        from <= r <= line@.len(),
        r == token_end_at(line@, from as int),
{
    let n = line.len();
    let mut i = from;
    while i < n
        invariant
            from <= i <= n,
            n == line@.len(),
            token_end_at(line@, from as int) == token_end_at(line@, i as int),
        decreases n - i,
    {
        let c = line[i];
        if c == 32 || c == 9 || c == 10 || c == 12 || c == 13 {
            return i;
        }
        i = i + 1;
    }
    n
}

/// A line with a trailing carriage return loses it, as the standard
/// library's line iterator does.
pub open spec fn strip_cr(l: Seq<u8>) -> Seq<u8> {
    if l.len() > 0 && l.last() == 13 {
        l.drop_last()
    } else {
        l
    }
}

/// The lines of `s`: split at every newline, dropping the newline and a
/// carriage return just before it; no empty trailing line.
pub open spec fn spec_split_lines(s: Seq<u8>) -> Seq<Seq<u8>>
    decreases s.len(),
    via spec_split_lines_dec
{
    if s.len() == 0 {
        Seq::empty()
    } else {
        let k = newline_at(s, 0);
        if k == s.len() {
            seq![strip_cr(s)]
        } else {
            seq![strip_cr(s.subrange(0, k))] + spec_split_lines(
                s.subrange(k + 1, s.len() as int),
            )
        }
    }
}

#[via_fn]
proof fn spec_split_lines_dec(s: Seq<u8>) {
    if s.len() > 0 {
        lemma_newline_at_bounds(s, 0);
    }
}

/// Split `text` into its lines.
pub fn split_lines(text: &Vec<u8>) -> (r: Vec<Vec<u8>>)
    ensures
        r.deep_view() == spec_split_lines(text@),
{
    let n = text.len();
    let mut r: Vec<Vec<u8>> = Vec::new();
    let mut pos: usize = 0;
    proof {
        assert(text@.subrange(0, n as int) =~= text@);
        assert(r.deep_view() =~= Seq::<Seq<u8>>::empty());
    }
    while pos < n
        invariant
            pos <= n,
            n == text@.len(),
            spec_split_lines(text@) =~= r.deep_view() + spec_split_lines(
                text@.subrange(pos as int, n as int),
            ),
        decreases n - pos,
    {
        let ghost rest = text@.subrange(pos as int, n as int);
        let mut k = pos;
        while k < n && text[k] != 10
            invariant
                pos <= k <= n,
                n == text@.len(),
                forall|t: int| pos <= t < k ==> text@[t] != 10,
            decreases n - k,
        {
            k = k + 1;
        }
        proof {
            assert(forall|t: int| 0 <= t < k - pos ==> rest[t] != 10);
            assert(k < n ==> rest[k - pos] == 10);
            lemma_newline_from_facts(rest, 0, k - pos);
        }
        let line_end = if k > pos && text[k - 1] == 13 {
            k - 1
        } else {
            k
        };
        let line = vstd::slice::slice_to_vec(
            vstd::slice::slice_subrange(text.as_slice(), pos, line_end),
        );
        let ghost old_deep = r.deep_view();
        r.push(line);
        proof {
            assert(line.deep_view() =~= strip_cr(rest.subrange(0, k - pos))) by {
                assert(line.deep_view() =~= line@);
                if k > pos && text@[k - 1] == 13 {
                    assert(rest.subrange(0, k - pos).last() == text@[k - 1]);
                    assert(line@ =~= rest.subrange(0, k - pos).drop_last());
                } else {
                    assert(line@ =~= rest.subrange(0, k - pos));
                }
            };
            assert(r.deep_view() =~= old_deep.push(strip_cr(rest.subrange(0, k - pos))));
        }
        if k < n {
            proof {
                assert(rest.subrange(0, k - pos) =~= text@.subrange(pos as int, k as int));
                assert(rest.subrange(k - pos + 1, rest.len() as int) =~= text@.subrange(
                    k + 1,
                    n as int,
                ));
            }
            pos = k + 1;
        } else {
            proof {
                assert(rest.subrange(0, k - pos) =~= rest);
                assert(text@.subrange(n as int, n as int) =~= Seq::<u8>::empty());
            }
            pos = n;
        }
    }
    proof {
        assert(text@.subrange(n as int, n as int) =~= Seq::<u8>::empty());
        assert(r.deep_view() =~= spec_split_lines(text@));
    }
    r
}

/// A scan that saw no newline before `n`, and a newline (or the end) at `n`,
/// found `newline_at`.
proof fn lemma_newline_from_facts(s: Seq<u8>, from: int, n: int)
    requires
        0 <= from,
        from + n <= s.len(),
        0 <= n,
        forall|t: int| from <= t < from + n ==> s[t] != 10,
        from + n == s.len() || s[from + n] == 10,
    ensures
        newline_at(s, from) == from + n,
    decreases n,
{
    if n > 0 {
        lemma_newline_from_facts(s, from + 1, n - 1);
    }
}

/// The lowercase hex digit with value `d`.
pub open spec fn spec_hex_digit_char(d: int) -> u8
    recommends
        0 <= d < 16,
{
    if d < 10 {
        (48 + d) as u8
    } else {
        (87 + d) as u8
    }
}

/// The lowercase hex numeral of `n`, most significant digit first, with no
/// leading zeros (a single `0` for zero itself).
pub open spec fn spec_hex_digits(n: int) -> Seq<u8>
    decreases n,
    when n >= 0
{
    if n < 16 {
        seq![spec_hex_digit_char(n)]
    } else {
        spec_hex_digits(n / 16).push(spec_hex_digit_char(n % 16))
    }
}

/// Format `n` as a lowercase hex numeral, the way the kernel prints
/// addresses in `smaps`.
pub fn hex_digits(n: usize) -> (r: Vec<u8>)
    ensures
        r@ == spec_hex_digits(n as int),
{
    let mut rev: Vec<u8> = Vec::new();
    let mut m = n;
    while m >= 16
        invariant
            spec_hex_digits(n as int) =~= spec_hex_digits(m as int) + rev@.reverse(),
        decreases m,
    {
        let d = (m % 16) as u8;
        let c: u8 = if d < 10 {
            48 + d
        } else {
            87 + d
        };
        let ghost old_rev = rev@;
        rev.push(c);
        proof {
            assert(c == spec_hex_digit_char(m as int % 16));
            assert(rev@.reverse() =~= seq![c] + old_rev.reverse());
            assert(spec_hex_digits(m as int) =~= spec_hex_digits(m as int / 16) + seq![c]);
            assert(spec_hex_digits(m as int / 16) + (seq![c] + old_rev.reverse())
                =~= (spec_hex_digits(m as int / 16) + seq![c]) + old_rev.reverse());
        }
        m = m / 16;
    }
    let d = m as u8;
    let c: u8 = if d < 10 {
        48 + d
    } else {
        87 + d
    };
    let ghost old_rev = rev@;
    rev.push(c);
    proof {
        assert(c == spec_hex_digit_char(m as int));
        assert(spec_hex_digits(m as int) =~= seq![c]);
        assert(rev@.reverse() =~= seq![c] + old_rev.reverse());
        assert(spec_hex_digits(n as int) =~= rev@.reverse());
    }
    let nr = rev.len();
    let mut out: Vec<u8> = Vec::new();
    let mut i = nr;
    while i > 0
        invariant
            i <= nr,
            nr == rev@.len(),
            out@.len() == nr - i,
            forall|k: int| 0 <= k < out@.len() ==> out@[k] == rev@[nr - 1 - k],
            spec_hex_digits(n as int) =~= rev@.reverse(),
        decreases i,
    {
        i = i - 1;
        out.push(rev[i]);
    }
    proof {
        assert(out@ =~= rev@.reverse());
    }
    out
}

/// Every byte of a formatted hex numeral is a hex digit.
pub proof fn lemma_hex_digits_are_digits(n: int)
    requires
        n >= 0,
    ensures
        forall|k: int|
            0 <= k < spec_hex_digits(n).len() ==> is_hex_digit(#[trigger] spec_hex_digits(n)[k]),
        spec_hex_digits(n).len() >= 1,
    decreases n,
{
    if n < 16 {
        assert(is_hex_digit(spec_hex_digit_char(n)));
    } else {
        lemma_hex_digits_are_digits(n / 16);
        assert(0 <= n % 16 < 16);
        assert(is_hex_digit(spec_hex_digit_char(n % 16)));
        assert(spec_hex_digits(n).last() == spec_hex_digit_char(n % 16));
    }
}

/// Formatting a number as hex and reading the digits back yields the same
/// number.
pub proof fn lemma_hex_digits_value(n: int)
    requires
        n >= 0,
    ensures
        hex_value(spec_hex_digits(n)) == n,
    decreases n,
{
    if n < 16 {
        let s = spec_hex_digits(n);
        assert(s =~= seq![spec_hex_digit_char(n)]);
        assert(s.len() == 1 && s.last() == spec_hex_digit_char(n));
        assert(s.drop_last() =~= Seq::<u8>::empty());
        assert(hex_value(s) == hex_value(s.drop_last()) * 16 + hex_digit_val(s.last()));
        assert(hex_value(Seq::<u8>::empty()) == 0);
        assert(hex_digit_val(spec_hex_digit_char(n)) == n);
    } else {
        lemma_hex_digits_value(n / 16);
        let s = spec_hex_digits(n);
        assert(s == spec_hex_digits(n / 16).push(spec_hex_digit_char(n % 16)));
        assert(s.len() >= 1 && s.last() == spec_hex_digit_char(n % 16));
        assert(s.drop_last() =~= spec_hex_digits(n / 16));
        assert(hex_value(s) == hex_value(s.drop_last()) * 16 + hex_digit_val(s.last()));
        assert(hex_digit_val(spec_hex_digit_char(n % 16)) == n % 16);
        vstd::arithmetic::div_mod::lemma_fundamental_div_mod(n, 16);
        assert(n == 16 * (n / 16) + n % 16);
        assert(hex_value(s) == (n / 16) * 16 + n % 16);
    }
}

/// `l` begins with `p`.
pub open spec fn spec_starts_with(l: Seq<u8>, p: Seq<u8>) -> bool {
    l.len() >= p.len() && l.subrange(0, p.len() as int) == p
}

pub fn starts_with(l: &Vec<u8>, p: &Vec<u8>) -> (r: bool)
    ensures
        r == spec_starts_with(l@, p@),
{
    let np = p.len();
    if l.len() < np {
        proof {
            assert(!spec_starts_with(l@, p@));
        }
        return false;
    }
    let mut i: usize = 0;
    while i < np
        invariant
            i <= np == p@.len() <= l@.len(),
            forall|k: int| 0 <= k < i ==> l@[k] == p@[k],
        decreases np - i,
    {
        if l[i] != p[i] {
            proof {
                assert(l@.subrange(0, np as int)[i as int] != p@[i as int]);
            }
            return false;
        }
        i = i + 1;
    }
    proof {
        assert(l@.subrange(0, np as int) =~= p@);
    }
    true
}

/// `p` occurs somewhere inside `l`.
pub open spec fn spec_contains_bytes(l: Seq<u8>, p: Seq<u8>) -> bool {
    exists|i: int| 0 <= i <= l.len() - p.len() && #[trigger] l.subrange(i, i + p.len()) == p
}

pub fn contains_bytes(l: &Vec<u8>, p: &Vec<u8>) -> (r: bool)
    ensures
        r == spec_contains_bytes(l@, p@),
{
    let nl = l.len();
    let np = p.len();
    if np > nl {
        proof {
            assert(!spec_contains_bytes(l@, p@));
        }
        return false;
    }
    let mut i: usize = 0;
    while i <= nl - np
        invariant
            np <= nl,
            nl == l@.len(),
            np == p@.len(),
            i <= nl - np + 1,
            forall|j: int| 0 <= j < i ==> #[trigger] l@.subrange(j, j + np) != p@,
        decreases nl - i,
    {
        let mut k: usize = 0;
        let mut all_eq = true;
        while k < np
            invariant
                i + np <= nl,
                nl == l@.len(),
                np == p@.len(),
                k <= np,
                all_eq <==> (forall|t: int| 0 <= t < k ==> l@[i + t] == p@[t]),
            decreases np - k,
        {
            if l[i + k] != p[k] {
                all_eq = false;
                k = np;
            } else {
                proof {
                    assert(l@[i + k] == p@[k as int]);
                }
                k = k + 1;
            }
        }
        if all_eq {
            proof {
                assert(l@.subrange(i as int, i + np) =~= p@);
            }
            return true;
        }
        proof {
            assert(exists|t: int| 0 <= t < np && l@[i + t] != p@[t]);
            let t = choose|t: int| 0 <= t < np && l@[i + t] != p@[t];
            assert(l@.subrange(i as int, i + np)[t] != p@[t]);
        }
        i = i + 1;
    }
    proof {
        assert(!spec_contains_bytes(l@, p@));
    }
    false
}

} // verus!
