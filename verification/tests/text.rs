use evolution_simulator::text::{
    ends_with_text, parse_unsigned, push_decimal, skip_space, skip_space_back, space, span_is_word,
    starts_with_text,
};

#[test]
fn unsigned_numbers_parse_as_str_parse_does() {
    assert_eq!(parse_unsigned("123", 1000), Some(123));
    assert_eq!(parse_unsigned("1001", 1000), None);
    assert_eq!(parse_unsigned("+7", 10), Some(7));
    assert_eq!(parse_unsigned("007", 10), Some(7));
    assert_eq!(parse_unsigned("", 10), None);
    assert_eq!(parse_unsigned("+", 10), None);
    assert_eq!(parse_unsigned("1 2", 100), None);
    assert_eq!(parse_unsigned("-1", 100), None);
    assert_eq!(parse_unsigned("18446744073709551615", u64::MAX), Some(u64::MAX));
    assert_eq!(parse_unsigned("18446744073709551616", u64::MAX), None);
}

#[test]
fn decimals_print_without_leading_zeros() {
    let mut s = String::from("n=");
    push_decimal(&mut s, 0);
    push_decimal(&mut s, 4096);
    assert_eq!(s, "n=04096");
    let mut t = String::new();
    push_decimal(&mut t, u64::MAX);
    assert_eq!(t, u64::MAX.to_string());
}

#[test]
fn white_space_and_words() {
    assert!(space(' '));
    assert!(space('\u{3000}'));
    assert!(!space('x'));
    let s = "  Off\t";
    assert_eq!(skip_space(s, 0, 6), 2);
    assert_eq!(skip_space_back(s, 2, 6), 5);
    assert!(span_is_word(s, 2, 5, "off"));
    assert!(!span_is_word(s, 2, 5, "of"));
}

#[test]
fn prefixes_and_suffixes() {
    assert!(starts_with_text("seed-7-auto.evo", "seed-"));
    assert!(!starts_with_text("see", "seed-"));
    assert!(starts_with_text("", ""));
    assert!(ends_with_text("seed-7-auto.evo", "-auto.evo"));
    assert!(!ends_with_text("seed-7-auto.evo.tmp", "-auto.evo"));
    assert!(ends_with_text("é.evo.tmp", ".evo.tmp"));
    assert!(!ends_with_text("tmp", ".evo.tmp"));
}
