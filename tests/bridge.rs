use string_bridge::greeting::get_str;
use string_bridge::line::{c_str_len, print_line, print_null_terminated_line, NEWLINE};
use string_bridge::runes::{count_runes, is_valid_utf8};

#[test]
fn count_runes_of_hello_with_accent() {
    let bytes = "héllo".as_bytes();
    assert_eq!(bytes.len(), 6);
    assert!(is_valid_utf8(bytes));
    assert_eq!(count_runes(bytes), 5);
}

#[test]
fn print_line_of_hello_with_accent() {
    let out = print_line("héllo".as_bytes());
    assert_eq!(out, "héllo\n".as_bytes().to_vec());
}

#[test]
fn print_null_terminated_abc() {
    let out = print_null_terminated_line(b"abc\0");
    assert_eq!(out, b"abc\n".to_vec());
}

#[test]
fn count_runes_of_empty_buffer() {
    assert_eq!(count_runes(&[]), 0);
}

#[test]
fn count_runes_of_two_byte_char() {
    assert_eq!(count_runes("é".as_bytes()), 1);
}

#[test]
fn count_runes_of_emoji() {
    let bytes = "\u{1F600}\u{1F680}".as_bytes();
    assert_eq!(bytes.len(), 8);
    assert_eq!(count_runes(bytes), 2);
}

#[test]
fn count_runes_matches_char_count_of_text() {
    for text in ["", "abc", "naïve café", "日本語のテキスト", "a\u{10FFFF}b\u{7F}\u{80}\u{7FF}\u{800}\u{FFFF}\u{10000}"] {
        assert!(is_valid_utf8(text.as_bytes()));
        assert_eq!(count_runes(text.as_bytes()), text.chars().count());
    }
}

#[test]
fn count_runes_counts_combining_marks_separately() {
    let text = "e\u{301}";
    assert_eq!(count_runes(text.as_bytes()), 2);
}

#[test]
fn valid_utf8_accepts_well_formed_text() {
    assert!(is_valid_utf8(&[]));
    assert!(is_valid_utf8(b"plain ascii"));
    assert!(is_valid_utf8(&[0xc2, 0x80]));
    assert!(is_valid_utf8(&[0xe0, 0xa0, 0x80]));
    assert!(is_valid_utf8(&[0xed, 0x9f, 0xbf]));
    assert!(is_valid_utf8(&[0xee, 0x80, 0x80]));
    assert!(is_valid_utf8(&[0xf0, 0x90, 0x80, 0x80]));
    assert!(is_valid_utf8(&[0xf4, 0x8f, 0xbf, 0xbf]));
}

#[test]
fn valid_utf8_rejects_malformed_bytes() {
    assert!(!is_valid_utf8(&[0x80]));
    assert!(!is_valid_utf8(&[0xc3]));
    assert!(!is_valid_utf8(&[0xc0, 0x80]));
    assert!(!is_valid_utf8(&[0xc1, 0xbf]));
    assert!(!is_valid_utf8(&[0xe0, 0x80, 0x80]));
    assert!(!is_valid_utf8(&[0xed, 0xa0, 0x80]));
    assert!(!is_valid_utf8(&[0xf0, 0x80, 0x80, 0x80]));
    assert!(!is_valid_utf8(&[0xf4, 0x90, 0x80, 0x80]));
    assert!(!is_valid_utf8(&[0xf8, 0x80, 0x80, 0x80]));
    assert!(!is_valid_utf8(&[0x61, 0xe2, 0x82]));
    assert!(!is_valid_utf8(&[0xe2, 0x28, 0xa1]));
}

#[test]
fn valid_utf8_agrees_with_std() {
    let samples: [&[u8]; 8] = [
        b"abc",
        &[0xc3, 0xa9, 0x41],
        &[0xc3, 0x41],
        &[0xed, 0xbf, 0xbf],
        &[0xef, 0xbf, 0xbf],
        &[0xf3, 0xbf, 0xbf, 0xbf],
        &[0xf5, 0x80, 0x80, 0x80],
        &[0xe1, 0x80],
    ];
    for bytes in samples {
        assert_eq!(is_valid_utf8(bytes), std::str::from_utf8(bytes).is_ok());
    }
}

#[test]
fn print_line_of_empty_buffer_is_one_newline() {
    assert_eq!(print_line(&[]), vec![NEWLINE]);
}

#[test]
fn print_line_reads_as_text_and_newline() {
    let text = "line with \u{1F600} and \u{e9}";
    let out = print_line(text.as_bytes());
    assert_eq!(out.len(), text.len() + 1);
    let read = std::str::from_utf8(&out).unwrap();
    assert_eq!(read, format!("{}\n", text));
}

#[test]
fn print_null_terminated_stops_at_first_zero() {
    let out = print_null_terminated_line(b"h\xc3\xa9\0tail\0");
    assert_eq!(out, "hé\n".as_bytes().to_vec());
}

#[test]
fn print_null_terminated_of_empty_string() {
    assert_eq!(print_null_terminated_line(&[0, 0x41, 0]), vec![NEWLINE]);
}

#[test]
fn c_str_len_finds_first_zero() {
    assert_eq!(c_str_len(b"abc\0"), 3);
    assert_eq!(c_str_len(b"\0abc\0"), 0);
    assert_eq!(c_str_len(b"ab\0c\0"), 2);
}

#[test]
fn get_str_is_greeting_with_terminator() {
    let first = get_str();
    let second = get_str();
    assert_eq!(first.as_bytes(), b"Hello from Rust!\0");
    assert_eq!(first.as_bytes(), second.as_bytes());
    assert_eq!(first.as_ptr(), second.as_ptr());
    assert_eq!(c_str_len(first.as_bytes()), 16);
    assert_eq!(print_null_terminated_line(first.as_bytes()), b"Hello from Rust!\n".to_vec());
}
