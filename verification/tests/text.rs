use koans::text::{begins_with, has_char, le, push_decimal, push_two_digits, read_two_digits};

#[test]
fn le_orders_by_first_difference() {
    assert!(le("02_x", "10_x"));
    assert!(!le("10_x", "02_x"));
    assert!(le("00_a", "00_b"));
    assert!(!le("00_b", "00_a"));
}

#[test]
fn le_puts_a_text_before_its_extensions() {
    assert!(le("", ""));
    assert!(le("", "a"));
    assert!(!le("a", ""));
    assert!(le("00_a", "00_ab"));
    assert!(!le("00_ab", "00_a"));
    assert!(le("00_a", "00_a"));
}

#[test]
fn le_agrees_with_the_order_of_strings() {
    let samples = ["", "0", "00_a", "00_b", "01_a", "10_x", "2_x", "é", "z", "€", "a\u{10000}"];
    for a in samples.iter() {
        for b in samples.iter() {
            assert_eq!(le(a, b), a <= b, "{:?} {:?}", a, b);
        }
    }
}

#[test]
fn le_without_zero_padding_is_not_numeric() {
    assert!(le("100_x", "99_x"));
}

#[test]
fn begins_with_finds_prefixes_only() {
    assert!(begins_with("00_a.rs", "00_a"));
    assert!(begins_with("00_a.rs", ""));
    assert!(begins_with("00_a.rs", "00_a.rs"));
    assert!(!begins_with("00_a.rs", "00_a.rs.bak"));
    assert!(!begins_with("00_a.rs", "0_a"));
    assert!(!begins_with("", "a"));
    assert!(begins_with("", ""));
}

#[test]
fn has_char_finds_a_character_anywhere() {
    assert!(has_char("a\nb", '\n'));
    assert!(has_char("\n", '\n'));
    assert!(has_char("ab\n", '\n'));
    assert!(!has_char("ab", '\n'));
    assert!(!has_char("", '\n'));
}

#[test]
fn push_two_digits_pads_to_two() {
    let mut out = String::from("x");
    push_two_digits(&mut out, 0);
    assert_eq!(out, "x00");
    push_two_digits(&mut out, 7);
    assert_eq!(out, "x0007");
    push_two_digits(&mut out, 42);
    assert_eq!(out, "x000742");
    push_two_digits(&mut out, 99);
    assert_eq!(out, "x00074299");
}

#[test]
fn push_two_digits_keeps_longer_numbers_whole() {
    let mut out = String::new();
    push_two_digits(&mut out, 100);
    assert_eq!(out, "100");
    let mut out = String::new();
    push_two_digits(&mut out, 12345);
    assert_eq!(out, format!("{:02}", 12345));
}

#[test]
fn push_decimal_writes_as_format_does() {
    for n in [0usize, 1, 9, 10, 11, 99, 100, 101, 1000, 65535, usize::MAX] {
        let mut out = String::new();
        push_decimal(&mut out, n);
        assert_eq!(out, format!("{}", n));
        let mut out = String::new();
        push_two_digits(&mut out, n);
        assert_eq!(out, format!("{:02}", n));
    }
}

#[test]
fn read_two_digits_reads_exactly_two_digits() {
    assert_eq!(read_two_digits("00"), Some(0));
    assert_eq!(read_two_digits("07"), Some(7));
    assert_eq!(read_two_digits("42"), Some(42));
    assert_eq!(read_two_digits("99"), Some(99));
    assert_eq!(read_two_digits(""), None);
    assert_eq!(read_two_digits("7"), None);
    assert_eq!(read_two_digits("007"), None);
    assert_eq!(read_two_digits("4a"), None);
    assert_eq!(read_two_digits("a4"), None);
    assert_eq!(read_two_digits("+4"), None);
    assert_eq!(read_two_digits("٤٢"), None);
}

#[test]
fn read_two_digits_reads_back_what_was_written() {
    for n in 0usize..100 {
        let mut out = String::new();
        push_two_digits(&mut out, n);
        assert_eq!(read_two_digits(&out), Some(n));
    }
}
