use rust_http::ascii::{bytes_equal, copy_range, ends_with_at, is_space, is_upper};
use rust_http::ascii::{push_bytes, push_text, text_bytes, to_upper};

#[test]
fn white_space_bytes() {
    for b in 0..=255u8 {
        let expected = matches!(b, 9 | 10 | 11 | 12 | 13 | 32);
        assert_eq!(is_space(b), expected, "byte {}", b);
    }
}

#[test]
fn upper_case_letters() {
    for b in 0..=255u8 {
        assert_eq!(is_upper(b), b.is_ascii_uppercase(), "byte {}", b);
    }
}

#[test]
fn upper_case_form() {
    for b in 0..=255u8 {
        assert_eq!(to_upper(b), b.to_ascii_uppercase(), "byte {}", b);
    }
}

#[test]
fn copy_of_a_range() {
    assert_eq!(copy_range(b"abcdef", 1, 4), b"bcd".to_vec());
    assert_eq!(copy_range(b"abcdef", 0, 6), b"abcdef".to_vec());
    assert_eq!(copy_range(b"abcdef", 3, 3), b"".to_vec());
    assert_eq!(copy_range(b"", 0, 0), b"".to_vec());
}

#[test]
fn equality_of_byte_strings() {
    assert!(bytes_equal(b"", b""));
    assert!(bytes_equal(b"abc", b"abc"));
    assert!(!bytes_equal(b"abc", b"abd"));
    assert!(!bytes_equal(b"abc", b"ab"));
    assert!(!bytes_equal(b"", b"a"));
}

#[test]
fn tail_of_a_line() {
    assert!(ends_with_at(b"GET / HTTP/1.1\r\n", 6, b"HTTP/1.1\r\n"));
    assert!(!ends_with_at(b"GET / HTTP/1.1\r\n", 5, b"HTTP/1.1\r\n"));
    assert!(ends_with_at(b"abc", 3, b""));
    assert!(!ends_with_at(b"abc", 0, b"ab"));
}

#[test]
fn appending_text_and_bytes() {
    let mut out = text_bytes("ab");
    push_text(&mut out, "cd");
    push_bytes(&mut out, b"ef");
    push_text(&mut out, "");
    assert_eq!(out, b"abcdef".to_vec());
    assert_eq!(text_bytes("h\u{e9}"), vec![104, 195, 169]);
}
