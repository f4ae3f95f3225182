use zero_shell::text::{decimal_padded, is_whitespace, parse_i32, text_eq, trim_end_str};

#[test]
fn whitespace_matches_std() {
    for u in 0u32..=0x10FFFF {
        if let Some(c) = char::from_u32(u) {
            assert_eq!(is_whitespace(c), c.is_whitespace(), "char {:?}", c);
        }
    }
}

#[test]
fn trim_end_matches_std() {
    for s in ["", "  ", "abc", "abc  \t\n", " a b ", "x\u{3000}", "\u{a0}y\u{a0}"] {
        assert_eq!(trim_end_str(s), s.trim_end());
    }
}

#[test]
fn parse_i32_matches_std() {
    for s in [
        "0", "7", "+7", "-7", "007", "-0", "", "+", "-", "12a", "a12", " 1", "1 ", "2147483647",
        "2147483648", "-2147483648", "-2147483649", "99999999999999999999", "+-1", "--1",
    ] {
        assert_eq!(parse_i32(s), s.parse::<i32>().ok(), "input {:?}", s);
    }
}

#[test]
fn decimal_padded_matches_format() {
    for (n, w) in [(0u64, 8usize), (5, 1), (123, 10), (1234567890123, 10), (u64::MAX, 3), (42, 0)] {
        assert_eq!(decimal_padded(n, w), format!("{:>w$}", n, w = w));
    }
}

#[test]
fn text_equality() {
    assert!(text_eq("abc", "abc"));
    assert!(!text_eq("abc", "abd"));
    assert!(!text_eq("ab", "abc"));
    assert!(text_eq("", ""));
}
