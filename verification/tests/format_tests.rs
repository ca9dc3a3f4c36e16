use wander::format::{parse_decimal_exec, thousands, trim};

#[test]
fn small_numbers_are_left_alone() {
    assert_eq!(thousands(0), "0");
    assert_eq!(thousands(7), "7");
    assert_eq!(thousands(999), "999");
}

#[test]
fn groups_of_three_are_separated() {
    assert_eq!(thousands(1_000), "1\u{202f}000");
    assert_eq!(thousands(20_317), "20\u{202f}317");
    assert_eq!(thousands(1_000_000), "1\u{202f}000\u{202f}000");
}

#[test]
fn every_boundary_gets_exactly_one_separator() {
    for (n, expected) in [
        (999u64, 0usize),
        (1_000, 1),
        (999_999, 1),
        (1_000_000, 2),
        (u64::MAX, 6),
    ] {
        let formatted = thousands(n);
        assert_eq!(
            formatted.matches('\u{202f}').count(),
            expected,
            "{n} formatted as {formatted}"
        );
        assert_eq!(
            formatted.chars().filter(char::is_ascii_digit).count(),
            n.to_string().len()
        );
    }
}

#[test]
fn decimal_parsing_follows_the_integer_parser() {
    assert_eq!(parse_decimal_exec("123456", u64::MAX), Some(123456));
    assert_eq!(parse_decimal_exec("+7", u64::MAX), Some(7));
    assert_eq!(parse_decimal_exec("18446744073709551615", u64::MAX), Some(u64::MAX));
    assert_eq!(parse_decimal_exec("18446744073709551616", u64::MAX), None);
    assert_eq!(parse_decimal_exec("65536", 65535), None);
    assert_eq!(parse_decimal_exec("banana", u64::MAX), None);
    assert_eq!(parse_decimal_exec("", u64::MAX), None);
    assert_eq!(parse_decimal_exec("+", u64::MAX), None);
    assert_eq!(parse_decimal_exec("-1", u64::MAX), None);
}

#[test]
fn trimming_removes_unicode_whitespace_at_both_ends() {
    assert_eq!(trim("  a b \t\n"), "a b");
    assert_eq!(trim("\u{3000}x\u{a0}"), "x");
    assert_eq!(trim("   "), "");
}
