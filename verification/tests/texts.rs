use findfiles::text::{
    chars_of, is_whitespace, parse_decimal, second_field, str_eq, trim_both, trim_right,
    write_decimal,
};

#[test]
fn white_space_is_what_std_says() {
    for u in 0..=0x10ffffu32 {
        if let Some(c) = char::from_u32(u) {
            assert_eq!(is_whitespace(c), c.is_whitespace(), "U+{:04X}", u);
        }
    }
}

#[test]
fn trimming_is_what_std_does() {
    for s in ["", " ", "a", " a ", "\t a b \r\n", "a\u{a0}", "\u{2003}x\u{3000}\u{3000}", "   ", "é \n", "\n.\n"] {
        assert_eq!(trim_right(s), s.trim_end());
        assert_eq!(trim_both(s), s.trim());
    }
}

#[test]
fn second_field_is_the_second_piece() {
    for s in ["", "a", ":", "a:", ":b", "a:b", "a:b:c", "a::c", "token: x y ", "::", "é:ü:ö"] {
        assert_eq!(second_field(s), s.split(':').nth(1), "{:?}", s);
    }
}

#[test]
fn decimal_numbers() {
    assert_eq!(parse_decimal("0"), Some(0));
    assert_eq!(parse_decimal("42"), Some(42));
    assert_eq!(parse_decimal("+42"), Some(42));
    assert_eq!(parse_decimal("007"), Some(7));
    assert_eq!(parse_decimal(""), None);
    assert_eq!(parse_decimal("+"), None);
    assert_eq!(parse_decimal("-"), None);
    assert_eq!(parse_decimal("-5"), None);
    assert_eq!(parse_decimal("++5"), None);
    assert_eq!(parse_decimal("5+"), None);
    assert_eq!(parse_decimal(" 5"), None);
    assert_eq!(parse_decimal("5 "), None);
    assert_eq!(parse_decimal("5a"), None);
    assert_eq!(parse_decimal("1_000"), None);
    assert_eq!(parse_decimal("٣"), None);
    assert_eq!(parse_decimal(&usize::MAX.to_string()), Some(usize::MAX));
    assert_eq!(parse_decimal("18446744073709551616"), None);
    assert_eq!(parse_decimal("99999999999999999999999999"), None);
    assert_eq!(parse_decimal("00000000000000000000000000001"), Some(1));
}

#[test]
fn decimal_agrees_with_std() {
    for s in ["", "+", "-", "+0", "-0", "12", "+12", "0012", "1 2", "12x", "184467440737095516150", "18446744073709551615"] {
        assert_eq!(parse_decimal(s), s.parse::<usize>().ok(), "{:?}", s);
    }
}

#[test]
fn characters_and_equality() {
    assert_eq!(chars_of("aé\u{1F600}"), vec!['a', 'é', '\u{1F600}']);
    assert!(chars_of("").is_empty());
    assert!(str_eq("save", "save"));
    assert!(!str_eq("save", "saved"));
    assert!(!str_eq("save", "sav"));
    assert!(!str_eq("save", "sole"));
    assert!(str_eq("", ""));
}

#[test]
fn a_number_written_is_read_back() {
    for n in [0usize, 7, 10, 99, 100, 12345, usize::MAX / 10, usize::MAX - 1, usize::MAX] {
        let mut s = String::new();
        write_decimal(n, &mut s);
        assert_eq!(parse_decimal(&s), Some(n));
    }
}
