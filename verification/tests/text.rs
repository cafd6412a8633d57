use fscs_monitor_plus::text::{
    blank, contains, find_char, parse_i32, remove_first_group, strip_prefix, strip_suffix,
    text_less, u64_to_decimal,
};

#[test]
fn decimal_numerals() {
    assert_eq!(u64_to_decimal(0), "0");
    assert_eq!(u64_to_decimal(7), "7");
    assert_eq!(u64_to_decimal(10), "10");
    assert_eq!(u64_to_decimal(20018296), "20018296");
    assert_eq!(u64_to_decimal(u64::MAX), "18446744073709551615");
}

#[test]
fn parse_i32_reads_like_from_str() {
    assert_eq!(parse_i32("2024"), Some(2024));
    assert_eq!(parse_i32("03"), Some(3));
    assert_eq!(parse_i32("-5"), Some(-5));
    assert_eq!(parse_i32("+7"), Some(7));
    assert_eq!(parse_i32("2147483647"), Some(i32::MAX));
    assert_eq!(parse_i32("-2147483648"), Some(i32::MIN));
    assert_eq!(parse_i32("2147483648"), None);
    assert_eq!(parse_i32("-2147483649"), None);
    assert_eq!(parse_i32("99999999999999999999"), None);
    assert_eq!(parse_i32(""), None);
    assert_eq!(parse_i32("-"), None);
    assert_eq!(parse_i32("+"), None);
    assert_eq!(parse_i32("12a"), None);
    assert_eq!(parse_i32(" 1"), None);
    assert_eq!(parse_i32("--1"), None);
    assert_eq!(parse_i32("١٢"), None);
}

#[test]
fn parse_i32_agrees_with_std() {
    for s in ["0", "-0", "+0", "00012", "-12", "4294967296", "12 ", "x", "9", "-2147483648"] {
        assert_eq!(parse_i32(s), s.parse::<i32>().ok(), "{}", s);
    }
}

#[test]
fn remove_first_group_cases() {
    assert_eq!(remove_first_group("U79 (Duisburg)"), "U79 ");
    assert_eq!(remove_first_group("S1"), "S1");
    assert_eq!(remove_first_group("(a)b(c)"), "b(c)");
    assert_eq!(remove_first_group("a(b"), "a(b");
    assert_eq!(remove_first_group("a)b(c)d"), "a)bd");
    assert_eq!(remove_first_group("()"), "");
    assert_eq!(remove_first_group("Bus (Nacht) 7"), "Bus  7");
    assert_eq!(remove_first_group("Zug (Düsseldorf Hbf)"), "Zug ");
}

#[test]
fn find_char_positions() {
    assert_eq!(find_char("abc", 'b'), Some(1));
    assert_eq!(find_char("abc", 'd'), None);
    assert_eq!(find_char("äb(", '('), Some(2));
}

#[test]
fn contains_and_strip() {
    assert!(contains("Suppe [V]", "[V]"));
    assert!(!contains("Suppe [v]", "[V]"));
    assert!(contains("abc", ""));
    assert!(!contains("ab", "abc"));
    assert_eq!(strip_prefix("background-image: url(x)", "background-image: url("), Some("x)".to_string()));
    assert_eq!(strip_prefix("color: red", "background-image: url("), None);
    assert_eq!(strip_suffix("x)", ")"), Some("x".to_string()));
    assert_eq!(strip_suffix("x", ")"), None);
}

#[test]
fn blank_is_trim_empty() {
    for s in ["", " ", "\n\t ", "\u{a0}\u{3000}", " a ", "x", "\u{200b}"] {
        assert_eq!(blank(s), s.trim().is_empty(), "{:?}", s);
    }
}

#[test]
fn text_order_is_string_order() {
    let words = ["", "a", "ab", "b", "U79", "U8", "Ä", "z", "S1", "S11"];
    for a in words {
        for b in words {
            assert_eq!(text_less(a, b), a.to_string() < b.to_string(), "{} {}", a, b);
        }
    }
}
