use bills::input::is_amount_text;
use bills::input::normalize_input;

#[test]
fn normalize_trims_surrounding_whitespace() {
    assert_eq!(normalize_input("  hi  "), Some("hi".to_string()));
    assert_eq!(normalize_input("\tRent 1\n"), Some("Rent 1".to_string()));
    assert_eq!(normalize_input("rent"), Some("rent".to_string()));
}

#[test]
fn normalize_treats_blank_as_no_input() {
    assert_eq!(normalize_input(""), None);
    assert_eq!(normalize_input("   "), None);
    assert_eq!(normalize_input(" \t\r\n"), None);
}

#[test]
fn normalize_keeps_inner_whitespace() {
    assert_eq!(normalize_input(" a  b "), Some("a  b".to_string()));
}

#[test]
fn normalize_trims_unicode_whitespace() {
    assert_eq!(normalize_input("\u{000b}"), None);
    assert_eq!(normalize_input("\u{0085}\u{00a0}\u{2003}\u{3000}"), None);
    assert_eq!(normalize_input("\u{00a0}hi\u{00a0}"), Some("hi".to_string()));
    assert_eq!(normalize_input("\u{2028}1\u{2029}"), Some("1".to_string()));
    assert_eq!(normalize_input("1\u{000b}"), Some("1".to_string()));
}

#[test]
fn normalize_agrees_with_trim() {
    for s in [
        "", "  hi  ", "\u{000b}", "1\u{000b}", "\u{0085}", "\u{00a0}x", "\u{1680}", "\u{2000}",
        "\u{200a}", "\u{200b}", "\u{2028}\u{2029}", "\u{202f}", "\u{205f}", "\u{3000}rent\u{3000}",
        "\t\r\n", "a\u{00a0}b",
    ] {
        let expected = if s.trim().is_empty() {
            None
        } else {
            Some(s.trim().to_string())
        };
        assert_eq!(normalize_input(s), expected, "on {:?}", s);
    }
}

#[test]
fn amount_accepts_decimal_and_scientific_forms() {
    for s in [
        "12.5", "0", "7", "1200", ".5", "5.", "-3.25", "+42", "1e5", "1E5", "-3.5e-2", "1e+07",
        "2.5e10", "inf", "+inf", "-Infinity", "NaN", "nan",
    ] {
        assert!(is_amount_text(s), "expected {:?} to be accepted", s);
    }
}

#[test]
fn amount_rejects_malformed_text() {
    for s in [
        "", "abc", ".", "+", "-", "+.", "1.2.3", "--5", "1e", "e5", "1e2.5", "12 ", " 12", "1,5",
        "0x10", "infi", "nanx", "1e+", "++1", "5e5e5",
    ] {
        assert!(!is_amount_text(s), "expected {:?} to be rejected", s);
    }
}

#[test]
fn amount_grammar_matches_float_parsing() {
    for s in [
        "12.5", "0", ".5", "5.", "-3.25", "1e5", "-3.5e-2", "inf", "-Infinity", "NaN", "", "abc",
        ".", "+", "1.2.3", "--5", "1e", "e5", "12 ", "0x10", "infi", "1e+", "1_000",
    ] {
        assert_eq!(is_amount_text(s), s.parse::<f64>().is_ok(), "on {:?}", s);
    }
}
