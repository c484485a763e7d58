use filegate::text::{
    bytes_to_str, decimal_string, matches_at, parse_decimal, push_bytes, push_decimal, push_str,
};

#[test]
fn bytes_become_one_character_each() {
    assert_eq!(bytes_to_str(b"hello world", 0, 5), "hello");
    assert_eq!(bytes_to_str(b"hello world", 6, 11), "world");
    assert_eq!(bytes_to_str(b"hello world", 3, 3), "");
    assert_eq!(bytes_to_str(&[0xe9, 0x41, 0xff], 0, 3), "\u{e9}A\u{ff}");
    assert_eq!(bytes_to_str(&[], 0, 0), "");
}

#[test]
fn numbers_are_written_in_decimal() {
    assert_eq!(decimal_string(0), "0");
    assert_eq!(decimal_string(7), "7");
    assert_eq!(decimal_string(10), "10");
    assert_eq!(decimal_string(1463), "1463");
    assert_eq!(decimal_string(1_000_000), "1000000");
    assert_eq!(decimal_string(u64::MAX), "18446744073709551615");
    let mut out = b"n=".to_vec();
    push_decimal(&mut out, 2048);
    assert_eq!(out, b"n=2048");
}

#[test]
fn decimal_agrees_with_the_standard_formatting() {
    for n in [0u64, 9, 10, 99, 100, 101, 65_535, 4_294_967_296, u64::MAX - 1, u64::MAX] {
        assert_eq!(decimal_string(n), n.to_string());
    }
}

#[test]
fn digits_are_read_back_as_the_number() {
    assert_eq!(parse_decimal(b"0", 0, 1), Some(0));
    assert_eq!(parse_decimal(b"42", 0, 2), Some(42));
    assert_eq!(parse_decimal(b"007", 0, 3), Some(7));
    assert_eq!(parse_decimal(b"+15", 0, 3), Some(15));
    assert_eq!(parse_decimal(b"Content-Length: 1234\r\n", 16, 20), Some(1234));
    assert_eq!(parse_decimal(b"18446744073709551615", 0, 20), Some(u64::MAX));
    for n in [0u64, 1, 1463, 123_456_789, u64::MAX] {
        let text = decimal_string(n);
        assert_eq!(parse_decimal(text.as_bytes(), 0, text.len()), Some(n));
    }
}

#[test]
fn what_is_no_number_is_not_read() {
    assert_eq!(parse_decimal(b"", 0, 0), None);
    assert_eq!(parse_decimal(b"+", 0, 1), None);
    assert_eq!(parse_decimal(b"-1", 0, 2), None);
    assert_eq!(parse_decimal(b"12a", 0, 3), None);
    assert_eq!(parse_decimal(b" 12", 0, 3), None);
    assert_eq!(parse_decimal(b"12 ", 0, 3), None);
    assert_eq!(parse_decimal(b"++1", 0, 3), None);
    assert_eq!(parse_decimal(b"1+1", 0, 3), None);
    assert_eq!(parse_decimal(b"18446744073709551616", 0, 20), None);
    assert_eq!(parse_decimal(b"99999999999999999999", 0, 20), None);
    assert_eq!(parse_decimal(b"184467440737095516150", 0, 21), None);
    assert_eq!(parse_decimal(b"18446744073709551616x", 0, 21), None);
}

#[test]
fn parse_agrees_with_the_standard_parser() {
    for text in ["", "+", "0", "+0", "-0", "12", "012", "1_000", "18446744073709551615",
        "18446744073709551616", "١٢", "1e3", "0x10"]
    {
        assert_eq!(parse_decimal(text.as_bytes(), 0, text.len()), text.parse::<u64>().ok());
    }
}

#[test]
fn patterns_are_found_where_they_stand() {
    assert!(matches_at(b"GET / HTTP/1.1\r\n", 0, b"GET"));
    assert!(matches_at(b"GET / HTTP/1.1\r\n", 6, b"HTTP/1.1"));
    assert!(!matches_at(b"GET / HTTP/1.1\r\n", 6, b"HTTP/1.0"));
    assert!(!matches_at(b"GE", 0, b"GET"));
    assert!(!matches_at(b"GET", 1, b"GET"));
    assert!(!matches_at(b"GET", 4, b""));
    assert!(matches_at(b"GET", 3, b""));
    assert!(matches_at(b"", 0, b""));
}

#[test]
fn bytes_and_text_are_appended() {
    let mut out = Vec::new();
    push_str(&mut out, "HTTP/1.1 ");
    push_bytes(&mut out, b"200");
    push_str(&mut out, " OK\r\n");
    assert_eq!(out, b"HTTP/1.1 200 OK\r\n");
    push_str(&mut out, "é");
    assert_eq!(&out[17..], &[0xc3, 0xa9]);
}
