use mem_analyze::text::{
    contains_bytes, dec_run_value, hex_run_value, scan_dec_run, scan_hex_run, skip_ws, split_lines,
    starts_with,
};

#[test]
fn lines_split_at_newlines() {
    let text = b"first\nsecond\nthird".to_vec();
    let lines = split_lines(&text);
    assert_eq!(lines, vec![b"first".to_vec(), b"second".to_vec(), b"third".to_vec()]);
}

#[test]
fn trailing_newline_adds_no_empty_line() {
    let lines = split_lines(&b"one\ntwo\n".to_vec());
    assert_eq!(lines.len(), 2);
    let empty = split_lines(&b"".to_vec());
    assert!(empty.is_empty());
}

#[test]
fn carriage_returns_are_stripped() {
    let lines = split_lines(&b"a\r\nb\r".to_vec());
    assert_eq!(lines, vec![b"a".to_vec(), b"b".to_vec()]);
}

#[test]
fn empty_interior_lines_survive() {
    let lines = split_lines(&b"a\n\nb".to_vec());
    assert_eq!(lines, vec![b"a".to_vec(), b"".to_vec(), b"b".to_vec()]);
}

#[test]
fn hex_runs_and_values() {
    let line = b"  7f2a-dead rest".to_vec();
    let start = skip_ws(&line, 0);
    assert_eq!(start, 2);
    let end = scan_hex_run(&line, start);
    assert_eq!(end, 6);
    assert_eq!(hex_run_value(&line, start, end), Some(0x7f2a));
    // "dead" also parses, "rest" does not reach it.
    assert_eq!(hex_run_value(&line, 7, 11), Some(0xdead));
}

#[test]
fn hex_overflow_is_rejected() {
    // 17 significant hex digits exceed a 64-bit value.
    let line = b"1ffffffffffffffff".to_vec();
    let end = scan_hex_run(&line, 0);
    assert_eq!(end, 17);
    assert_eq!(hex_run_value(&line, 0, end), None);
    // Leading zeros keep it in range.
    let padded = b"0000ffffffffffffffff".to_vec();
    let pend = scan_hex_run(&padded, 0);
    assert_eq!(hex_run_value(&padded, 0, pend), Some(usize::MAX));
}

#[test]
fn decimal_runs_and_values() {
    let line = b"Swap:            3237444 kB".to_vec();
    let start = skip_ws(&line, 5);
    let end = scan_dec_run(&line, start);
    assert_eq!(dec_run_value(&line, start, end), Some(3237444));
    // An empty window and a non-digit window both fail.
    assert_eq!(dec_run_value(&line, 0, 0), None);
    assert_eq!(dec_run_value(&line, 0, 4), None);
}

#[test]
fn decimal_overflow_is_rejected() {
    let line = b"18446744073709551615".to_vec();
    assert_eq!(dec_run_value(&line, 0, 20), Some(u64::MAX));
    let over = b"18446744073709551616".to_vec();
    assert_eq!(dec_run_value(&over, 0, 20), None);
}

#[test]
fn prefix_and_substring_search() {
    let line = b"00100000-bfffffff : System RAM".to_vec();
    assert!(starts_with(&line, &b"00100000".to_vec()));
    assert!(!starts_with(&line, &b"00100001".to_vec()));
    assert!(contains_bytes(&line, &b"System RAM".to_vec()));
    assert!(!contains_bytes(&line, &b"System ROM".to_vec()));
    // The needle may sit at the very end.
    assert!(contains_bytes(&line, &b"RAM".to_vec()));
    // An empty needle is found anywhere.
    assert!(contains_bytes(&line, &Vec::new()));
}
