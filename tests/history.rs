use hn::decimal::{parse_bounded, push_decimal};
use hn::history::{history_bytes, parse_history};

#[test]
fn writes_one_id_per_line() {
    assert_eq!(history_bytes(&[101, 102, 103]), b"101\n102\n103".to_vec());
}

#[test]
fn writes_nothing_for_no_ids() {
    assert_eq!(history_bytes(&[]), Vec::<u8>::new());
}

#[test]
fn writes_zero_and_largest_id() {
    assert_eq!(history_bytes(&[0, 4294967295]), b"0\n4294967295".to_vec());
}

#[test]
fn round_trip_keeps_order_and_repeats() {
    let ids = vec![7, 3, 3, 4294967295, 0, 12345];
    let text = history_bytes(&ids);
    assert_eq!(parse_history(&text), Some(ids));
}

#[test]
fn round_trip_of_empty_history() {
    assert_eq!(parse_history(&history_bytes(&[])), Some(vec![]));
}

#[test]
fn reads_trimmed_lines_and_skips_blank_ones() {
    let text = b"  101 \r\n\n\t102\n   \n103\n".to_vec();
    assert_eq!(parse_history(&text), Some(vec![101, 102, 103]));
}

#[test]
fn reads_empty_text_as_empty_history() {
    assert_eq!(parse_history(b""), Some(vec![]));
}

#[test]
fn reads_leading_plus() {
    assert_eq!(parse_history(b"+5\n6"), Some(vec![5, 6]));
}

#[test]
fn refuses_whole_file_on_malformed_line() {
    assert_eq!(parse_history(b"101\nabc\n103"), None);
}

#[test]
fn refuses_negative_and_lone_plus() {
    assert_eq!(parse_history(b"-1"), None);
    assert_eq!(parse_history(b"+"), None);
    assert_eq!(parse_history(b"1 2"), None);
}

#[test]
fn refuses_id_beyond_u32() {
    assert_eq!(parse_history(b"4294967295"), Some(vec![4294967295]));
    assert_eq!(parse_history(b"4294967296"), None);
    assert_eq!(parse_history(b"99999999999999999999999"), None);
}

#[test]
fn parses_bounded_numbers() {
    assert_eq!(parse_bounded(b"0", 10), Some(0));
    assert_eq!(parse_bounded(b"10", 10), Some(10));
    assert_eq!(parse_bounded(b"11", 10), None);
    assert_eq!(parse_bounded(b"007", 10), Some(7));
    assert_eq!(parse_bounded(b"", 10), None);
    assert_eq!(parse_bounded(b"3", 2), None);
    assert_eq!(parse_bounded(b"18446744073709551615", u64::MAX), Some(u64::MAX));
    assert_eq!(parse_bounded(b"18446744073709551616", u64::MAX), None);
}

#[test]
fn pushes_decimal_digits() {
    let mut out = b"id=".to_vec();
    push_decimal(40960, &mut out);
    assert_eq!(out, b"id=40960".to_vec());
    let mut zero = Vec::new();
    push_decimal(0, &mut zero);
    assert_eq!(zero, b"0".to_vec());
}

#[test]
fn skips_line_of_no_break_space() {
    let text = "5\n\u{a0}".as_bytes().to_vec();
    assert_eq!(parse_history(&text), Some(vec![5]));
}

#[test]
fn trims_unicode_whitespace_like_str_trim() {
    let spaces = [
        '\u{85}', '\u{a0}', '\u{1680}', '\u{2000}', '\u{2005}', '\u{200a}', '\u{2028}',
        '\u{2029}', '\u{202f}', '\u{205f}', '\u{3000}', '\u{b}', '\u{c}',
    ];
    for c in spaces {
        assert!(c.is_whitespace());
        let line = format!("{c}{c} 42{c}\t{c}");
        assert_eq!(line.trim(), "42");
        let text = format!("{line}\n{c}\n7");
        assert_eq!(parse_history(text.as_bytes()), Some(vec![42, 7]));
    }
}

#[test]
fn keeps_non_whitespace_unicode_malformed() {
    assert_eq!(parse_history("12\u{200b}".as_bytes()), None);
    assert_eq!(parse_history("\u{2060}12".as_bytes()), None);
    assert_eq!(parse_history("\u{3001}".as_bytes()), None);
}

#[test]
fn refuses_invalid_utf8() {
    assert_eq!(parse_history(&[b'1', 0xC2]), None);
    assert_eq!(parse_history(&[0xA0, b'1']), None);
    assert_eq!(parse_history(&[0xFF]), None);
}
